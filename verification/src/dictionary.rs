//! The lexical data model: a word with its meanings, definitions,
//! synonyms and antonyms, and the conversion from the raw shapes a
//! dictionary service hands back.

use vstd::prelude::*;

verus! {

/// Part of speech of one meaning, a closed enumeration.  Anything a
/// lexicon hands in that is not one of these fails the explicit parse.
#[derive(Debug, Clone, Copy, PartialEq, Eq, Structural)]
pub enum PartOfSpeech {
    Noun,
    Pronoun,
    Verb,
    Adjective,
    Adverb,
    Preposition,
    Conjunction,
    Interjection,
}

/// One definition of a meaning.
#[derive(Debug, Clone)]
pub struct WordDefinition {
    pub definition: String,
    pub example: Option<String>,
    pub synonyms: Vec<String>,
    pub antonyms: Vec<String>,
}

/// One meaning of a word: its part of speech, definitions, and
/// meaning-level synonym and antonym sets.
#[derive(Debug, Clone)]
pub struct WordMeaning {
    pub part_of_speech: PartOfSpeech,
    pub definitions: Vec<WordDefinition>,
    pub synonyms: Vec<String>,
    pub antonyms: Vec<String>,
}

/// Pronunciation data; carried along, never interpreted.
#[derive(Debug, Clone)]
pub struct Phonetic {
    pub text: Option<String>,
    pub audio: Option<String>,
}

/// A full lexical entry.
#[derive(Debug, Clone)]
pub struct Word {
    pub word: String,
    pub phonetic: Option<String>,
    pub phonetics: Vec<Phonetic>,
    pub origin: Option<String>,
    pub meanings: Vec<WordMeaning>,
}

/// A part-of-speech label the parse does not recognise.
#[derive(Debug)]
pub struct UnknownPartOfSpeech {
    pub kind: String,
}

/// The looked-up word is not in the dictionary.
#[derive(Debug)]
pub struct NotFoundError {
    pub message: String,
}

/// Failures of a lexical lookup, as the engine sees them.
#[derive(Debug)]
pub enum DictionaryError {
    /// The service could not be reached; the message describes why.
    Fetch(String),
    /// The service answered with something unreadable.
    Deserialize(String),
    /// The entry held an unrecognised part of speech.
    Conversion(UnknownPartOfSpeech),
    /// The word is not in the dictionary.
    NotFound(NotFoundError),
}

/// What the part-of-speech parse accepts, and which value each accepted
/// label denotes.
pub open spec fn parse_pos_spec(s: Seq<char>) -> Option<PartOfSpeech> {
    if s == "noun"@ {
        Some(PartOfSpeech::Noun)
    } else if s == "pronoun"@ {
        Some(PartOfSpeech::Pronoun)
    } else if s == "verb"@ {
        Some(PartOfSpeech::Verb)
    } else if s == "adjective"@ {
        Some(PartOfSpeech::Adjective)
    } else if s == "adverb"@ {
        Some(PartOfSpeech::Adverb)
    } else if s == "preposition"@ {
        Some(PartOfSpeech::Preposition)
    } else if s == "conjunction"@ {
        Some(PartOfSpeech::Conjunction)
    } else if s == "interjection"@ {
        Some(PartOfSpeech::Interjection)
    } else {
        None
    }
}

impl PartOfSpeech {
    /// Parses a free-form label into the closed enumeration, failing on
    /// anything unrecognised rather than defaulting.
    pub fn parse(value: String) -> (r: Result<PartOfSpeech, UnknownPartOfSpeech>)
        ensures
            match r {
                Ok(p) => parse_pos_spec(value@) == Some(p),
                Err(e) => parse_pos_spec(value@) is None && e.kind == value,
            },
    {
        if value == String::from_str("noun") {
            Ok(PartOfSpeech::Noun)
        } else if value == String::from_str("pronoun") {
            Ok(PartOfSpeech::Pronoun)
        } else if value == String::from_str("verb") {
            Ok(PartOfSpeech::Verb)
        } else if value == String::from_str("adjective") {
            Ok(PartOfSpeech::Adjective)
        } else if value == String::from_str("adverb") {
            Ok(PartOfSpeech::Adverb)
        } else if value == String::from_str("preposition") {
            Ok(PartOfSpeech::Preposition)
        } else if value == String::from_str("conjunction") {
            Ok(PartOfSpeech::Conjunction)
        } else if value == String::from_str("interjection") {
            Ok(PartOfSpeech::Interjection)
        } else {
            Err(UnknownPartOfSpeech { kind: value })
        }
    }
}

/// All synonyms one meaning contributes: its own set, then each
/// definition's set, in order.
pub open spec fn meaning_synonyms(m: WordMeaning) -> Seq<Seq<char>> {
    m.synonyms.deep_view() + m.definitions@.flat_map(
        |d: WordDefinition| d.synonyms.deep_view(),
    )
}

/// All antonyms one meaning contributes.
pub open spec fn meaning_antonyms(m: WordMeaning) -> Seq<Seq<char>> {
    m.antonyms.deep_view() + m.definitions@.flat_map(
        |d: WordDefinition| d.antonyms.deep_view(),
    )
}

/// Every synonym of the word: the union, in order, over all meanings.
pub open spec fn all_synonyms_spec(w: Word) -> Seq<Seq<char>> {
    w.meanings@.flat_map(|m: WordMeaning| meaning_synonyms(m))
}

/// Every antonym of the word.
pub open spec fn all_antonyms_spec(w: Word) -> Seq<Seq<char>> {
    w.meanings@.flat_map(|m: WordMeaning| meaning_antonyms(m))
}

/// Copies a list of strings.
pub fn clone_strings(v: &Vec<String>) -> (r: Vec<String>)
    ensures
        r@ == v@,
{
    let mut r: Vec<String> = Vec::new();
    let mut i: usize = 0;
    while i < v.len()
        invariant
            i <= v@.len(),
            r@ == v@.take(i as int),
        decreases v@.len() - i,
    {
        r.push(v[i].clone());
        i = i + 1;
        proof {
            assert(r@ =~= v@.take(i as int));
        }
    }
    proof {
        assert(v@.take(v@.len() as int) =~= v@);
    }
    r
}

pub(crate) fn extend_strings(acc: &mut Vec<String>, v: &Vec<String>)
    ensures
        final(acc)@ == old(acc)@ + v@,
{
    let mut i: usize = 0;
    while i < v.len()
        invariant
            i <= v@.len(),
            acc@ == old(acc)@ + v@.take(i as int),
        decreases v@.len() - i,
    {
        acc.push(v[i].clone());
        i = i + 1;
        proof {
            assert(acc@ =~= old(acc)@ + v@.take(i as int));
        }
    }
    proof {
        assert(old(acc)@ + v@.take(v@.len() as int) =~= old(acc)@ + v@);
    }
}

/// An entry free of degenerate self-reference: the word is not its own
/// synonym or antonym, and nothing is listed as both.
pub open spec fn clean_entry(w: Word) -> bool {
    &&& !all_synonyms_spec(w).contains(w.word@)
    &&& !all_antonyms_spec(w).contains(w.word@)
    &&& forall|x: Seq<char>|
        all_synonyms_spec(w).contains(x) ==> !(#[trigger] all_antonyms_spec(w).contains(x))
}

/// An element of one piece is an element of the flat-mapped whole.
pub proof fn lemma_flat_map_member<A, B>(s: Seq<A>, f: spec_fn(A) -> Seq<B>, i: int, x: B)
    requires
        0 <= i < s.len(),
        f(s[i]).contains(x),
    ensures
        s.flat_map(f).contains(x),
    decreases s.len(),
{
    if i == s.len() - 1 {
        assert(s.take(s.len() as int) =~= s);
        if s.len() == 1 {
            s.lemma_flat_map_singleton(f);
        } else {
            s.lemma_flat_map_take_append(f, s.len() - 1);
            let head = s.take(s.len() - 1).flat_map(f);
            let piece = f(s[i]);
            let kb = choose|kb: int| 0 <= kb < piece.len() && #[trigger] piece[kb] == x;
            assert((head + piece)[head.len() + kb] == x);
        }
    } else {
        lemma_flat_map_member(s.drop_last(), f, i, x);
        assert(s.drop_last()[i] == s[i]);
        assert(s.take(s.len() as int) =~= s);
        assert(s.take(s.len() - 1) =~= s.drop_last());
        s.lemma_flat_map_take_append(f, s.len() - 1);
        let head = s.drop_last().flat_map(f);
        let kb = choose|kb: int| 0 <= kb < head.len() && head[kb] == x;
        assert((head + f(s[s.len() - 1]))[kb] == x);
    }
}

/// A meaning-level synonym is among the meaning's synonyms.
pub proof fn lemma_meaning_level_member(own: Vec<String>, defs: Seq<Seq<char>>, j: int)
    requires
        0 <= j < own@.len(),
    ensures
        (own.deep_view() + defs).contains(own@[j]@),
{
    assert((own.deep_view() + defs)[j] == own@[j]@);
}

/// A definition-level synonym is among the meaning's synonyms.
pub proof fn lemma_def_level_member(own: Vec<String>, defs: Seq<Seq<char>>, x: Seq<char>)
    requires
        defs.contains(x),
    ensures
        (own.deep_view() + defs).contains(x),
{
    let kb = choose|kb: int| 0 <= kb < defs.len() && defs[kb] == x;
    assert((own.deep_view() + defs)[own.deep_view().len() + kb] == x);
}

impl Word {
    /// Every synonym of this word, from every meaning and definition.
    pub fn all_synonyms(&self) -> (r: Vec<String>)
        ensures
            r.deep_view() == all_synonyms_spec(*self),
    {
        let ghost fm = |m: WordMeaning| meaning_synonyms(m);
        let ghost fd = |d: WordDefinition| d.synonyms.deep_view();
        let mut r: Vec<String> = Vec::new();
        let mut i: usize = 0;
        while i < self.meanings.len()
            invariant
                i <= self.meanings@.len(),
                fm == (|m: WordMeaning| meaning_synonyms(m)),
                fd == (|d: WordDefinition| d.synonyms.deep_view()),
                r.deep_view() == self.meanings@.take(i as int).flat_map(fm),
            decreases self.meanings@.len() - i,
        {
            let m = &self.meanings[i];
            let ghost r0 = r.deep_view();
            extend_strings(&mut r, &m.synonyms);
            proof {
                assert(r.deep_view() =~= r0 + m.synonyms.deep_view());
            }
            let mut k: usize = 0;
            while k < m.definitions.len()
                invariant
                    k <= m.definitions@.len(),
                    fd == (|d: WordDefinition| d.synonyms.deep_view()),
                    r.deep_view() == r0 + m.synonyms.deep_view() + m.definitions@.take(
                        k as int,
                    ).flat_map(fd),
                decreases m.definitions@.len() - k,
            {
                let ghost r1 = r.deep_view();
                extend_strings(&mut r, &m.definitions[k].synonyms);
                proof {
                    assert(r.deep_view() =~= r1 + m.definitions@[k as int].synonyms.deep_view());
                    m.definitions@.lemma_flat_map_take_append(fd, k as int);
                }
                k = k + 1;
            }
            proof {
                assert(m.definitions@.take(m.definitions@.len() as int) =~= m.definitions@);
                assert(r.deep_view() =~= self.meanings@.take(i as int).flat_map(fm) + fm(
                    self.meanings@[i as int],
                ));
                self.meanings@.lemma_flat_map_take_append(fm, i as int);
            }
            i = i + 1;
        }
        proof {
            assert(self.meanings@.take(self.meanings@.len() as int) =~= self.meanings@);
        }
        r
    }

    /// Every antonym of this word, from every meaning and definition.
    pub fn all_antonyms(&self) -> (r: Vec<String>)
        ensures
            r.deep_view() == all_antonyms_spec(*self),
    {
        let ghost fm = |m: WordMeaning| meaning_antonyms(m);
        let ghost fd = |d: WordDefinition| d.antonyms.deep_view();
        let mut r: Vec<String> = Vec::new();
        let mut i: usize = 0;
        while i < self.meanings.len()
            invariant
                i <= self.meanings@.len(),
                fm == (|m: WordMeaning| meaning_antonyms(m)),
                fd == (|d: WordDefinition| d.antonyms.deep_view()),
                r.deep_view() == self.meanings@.take(i as int).flat_map(fm),
            decreases self.meanings@.len() - i,
        {
            let m = &self.meanings[i];
            let ghost r0 = r.deep_view();
            extend_strings(&mut r, &m.antonyms);
            proof {
                assert(r.deep_view() =~= r0 + m.antonyms.deep_view());
            }
            let mut k: usize = 0;
            while k < m.definitions.len()
                invariant
                    k <= m.definitions@.len(),
                    fd == (|d: WordDefinition| d.antonyms.deep_view()),
                    r.deep_view() == r0 + m.antonyms.deep_view() + m.definitions@.take(
                        k as int,
                    ).flat_map(fd),
                decreases m.definitions@.len() - k,
            {
                let ghost r1 = r.deep_view();
                extend_strings(&mut r, &m.definitions[k].antonyms);
                proof {
                    assert(r.deep_view() =~= r1 + m.definitions@[k as int].antonyms.deep_view());
                    m.definitions@.lemma_flat_map_take_append(fd, k as int);
                }
                k = k + 1;
            }
            proof {
                assert(m.definitions@.take(m.definitions@.len() as int) =~= m.definitions@);
                assert(r.deep_view() =~= self.meanings@.take(i as int).flat_map(fm) + fm(
                    self.meanings@[i as int],
                ));
                self.meanings@.lemma_flat_map_take_append(fm, i as int);
            }
            i = i + 1;
        }
        proof {
            assert(self.meanings@.take(self.meanings@.len() as int) =~= self.meanings@);
        }
        r
    }
}

} // verus!
