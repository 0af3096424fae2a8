//! Multiple-choice questions: the data model, the invariants every
//! generated question keeps, and the draft through which the generator
//! and the distractor sourcer build one.
//!
//! The invariants, maintained from assembly to the finished question:
//! exactly one answer is correct, no two answers show the same text, no
//! incorrect answer shows the tested word, and every answer text stands
//! in the exclusion set (so later distractors cannot repeat it).

use vstd::multiset::Multiset;
use vstd::prelude::*;
use vstd::string::StringExecFns;

use crate::dictionary::{
    all_antonyms_spec, all_synonyms_spec, clean_entry, extend_strings, lemma_def_level_member,
    lemma_flat_map_member, lemma_meaning_level_member, meaning_antonyms, meaning_synonyms,
    DictionaryError, PartOfSpeech, Word, WordDefinition, WordMeaning,
};
use crate::rng::Picker;
use crate::storage::WordEntry;

verus! {

/// Answers one question presents.
pub const ANSWER_COUNT: usize = 4;

/// One presented answer: its display text, whether it is the correct
/// one, and the saved-word record it corresponds to, when its text is
/// itself a saved word.
#[derive(Debug, Clone)]
pub struct Answer {
    pub content: String,
    pub correct: bool,
    pub word_uid: Option<i64>,
}

/// A question ready to present: the tested record, the prompt, and the
/// answer list.
#[derive(Debug, Clone)]
pub struct Question {
    pub word_uid: i64,
    pub question: String,
    pub answers: Vec<Answer>,
}

/// Why a question could not be generated.
#[derive(Debug)]
pub enum QuestionGenerationError {
    /// The entry lacks the structure this strategy needs; the caller
    /// falls back to another strategy.
    Unsupported,
    /// The vocabulary store failed; the message describes how.
    Storage(String),
    /// A lexical lookup failed.
    Dictionary(DictionaryError),
}

/// The display texts of a sequence of answers.
pub open spec fn answer_contents(s: Seq<Answer>) -> Seq<Seq<char>> {
    s.map_values(|a: Answer| a.content@)
}

/// Exactly one answer is flagged correct.
pub open spec fn exactly_one_correct(s: Seq<Answer>) -> bool {
    exists|i: int|
        0 <= i < s.len() && (#[trigger] s[i]).correct && forall|j: int|
            0 <= j < s.len() && j != i ==> !(#[trigger] s[j]).correct
}

/// No two answers show the same text.
pub open spec fn distinct_contents(s: Seq<Answer>) -> bool {
    forall|i: int, j: int|
        #![trigger s[i], s[j]]
        0 <= i < j < s.len() ==> s[i].content@ != s[j].content@
}

/// Some exclusion entry reads `w`.
pub open spec fn contains_text(ex: Seq<String>, w: Seq<char>) -> bool {
    exists|k: int| 0 <= k < ex.len() && (#[trigger] ex[k])@ == w
}

/// Every answer's text stands in the exclusion set.
pub open spec fn all_in_exclusion(s: Seq<Answer>, ex: Seq<String>) -> bool {
    forall|i: int| 0 <= i < s.len() ==> contains_text(ex, (#[trigger] s[i]).content@)
}

/// No incorrect answer shows the text `w`.
pub open spec fn no_incorrect_matches(s: Seq<Answer>, w: Seq<char>) -> bool {
    forall|i: int| 0 <= i < s.len() ==> (!(#[trigger] s[i]).correct ==> s[i].content@ != w)
}

/// Whether some exclusion entry reads the same as `w`.
pub fn contains_text_exec(ex: &Vec<String>, w: &String) -> (r: bool)
    ensures
        r == contains_text(ex@, w@),
{
    let n = ex.len();
    let mut k: usize = 0;
    while k < n
        invariant
            k <= n == ex@.len(),
            forall|t: int| 0 <= t < k ==> (#[trigger] ex@[t])@ != w@,
        decreases n - k,
    {
        if ex[k] == *w {
            return true;
        }
        k = k + 1;
    }
    false
}

/// A question being assembled: the strategy places the prompt and its
/// own answers, then the distractor sourcer fills the rest through the
/// guarded adds below.
#[derive(Debug)]
pub struct QuestionDraft {
    pub word_uid: i64,
    pub tested_word: String,
    pub prompt: String,
    pub answers: Vec<Answer>,
    pub exclusion: Vec<String>,
}

/// The draft invariants: one correct answer, distinct texts, everything
/// shown is excluded from future sourcing, the tested word is excluded,
/// and no incorrect answer shows the tested word.
pub open spec fn draft_wf(d: QuestionDraft) -> bool {
    &&& exactly_one_correct(d.answers@)
    &&& distinct_contents(d.answers@)
    &&& all_in_exclusion(d.answers@, d.exclusion@)
    &&& contains_text(d.exclusion@, d.tested_word@)
    &&& no_incorrect_matches(d.answers@, d.tested_word@)
}

/// The frame a sourcing step never touches.
pub open spec fn draft_frame(a: QuestionDraft, b: QuestionDraft) -> bool {
    a.word_uid == b.word_uid && a.tested_word == b.tested_word && a.prompt == b.prompt
}

/// What one guarded add does: a new text not yet excluded becomes an
/// incorrect answer and is excluded from then on, while a slot is free.
pub open spec fn add_incorrect_spec(
    d: QuestionDraft,
    content: String,
    word_uid: Option<i64>,
) -> (Seq<Answer>, Seq<String>) {
    if !contains_text(d.exclusion@, content@) && d.answers@.len() < ANSWER_COUNT {
        (
            d.answers@.push(Answer { content, correct: false, word_uid }),
            d.exclusion@.push(content),
        )
    } else {
        (d.answers@, d.exclusion@)
    }
}

impl QuestionDraft {
    /// Answer slots still to fill.
    pub fn remaining_slots(&self) -> (r: usize)
        ensures
            r == (if self.answers@.len() < ANSWER_COUNT {
                ANSWER_COUNT - self.answers@.len()
            } else {
                0int
            }),
    {
        if self.answers.len() < ANSWER_COUNT {
            ANSWER_COUNT - self.answers.len()
        } else {
            0
        }
    }

    /// Whether this text may no longer be used as a distractor.
    pub fn is_excluded(&self, w: &String) -> (r: bool)
        ensures
            r == contains_text(self.exclusion@, w@),
    {
        contains_text_exec(&self.exclusion, w)
    }

    /// Adds an incorrect answer unless its text is already excluded or
    /// every slot is taken; an added text joins the exclusion set.
    pub fn add_incorrect(&mut self, content: String, word_uid: Option<i64>) -> (added: bool)
        requires
            draft_wf(*old(self)),
        ensures
            draft_wf(*final(self)),
            draft_frame(*old(self), *final(self)),
            (final(self).answers@, final(self).exclusion@) == add_incorrect_spec(
                *old(self),
                content,
                word_uid,
            ),
            added == (!contains_text(old(self).exclusion@, content@) && old(self).answers@.len()
                < ANSWER_COUNT),
    {
        if self.answers.len() >= ANSWER_COUNT {
            return false;
        }
        if contains_text_exec(&self.exclusion, &content) {
            return false;
        }
        let ghost pre = *self;
        let ghost c = content@;
        self.answers.push(Answer { content: content.clone(), correct: false, word_uid });
        self.exclusion.push(content);
        proof {
            assert(self.answers@.last().content@ == c);
            assert(contains_text(self.exclusion@, c)) by {
                assert(self.exclusion@[self.exclusion@.len() - 1]@ == c);
            }
            assert forall|i: int| 0 <= i < self.answers@.len() implies contains_text(
                self.exclusion@,
                (#[trigger] self.answers@[i]).content@,
            ) by {
                if i < pre.answers@.len() {
                    let k = choose|k: int|
                        0 <= k < pre.exclusion@.len() && (#[trigger] pre.exclusion@[k])@
                            == pre.answers@[i].content@;
                    assert(self.exclusion@[k]@ == self.answers@[i].content@);
                }
            }
            assert(contains_text(self.exclusion@, pre.tested_word@)) by {
                let k = choose|k: int|
                    0 <= k < pre.exclusion@.len() && (#[trigger] pre.exclusion@[k])@
                        == pre.tested_word@;
                assert(self.exclusion@[k]@ == pre.tested_word@);
            }
            assert(distinct_contents(self.answers@)) by {
                assert forall|i: int, j: int|
                    #![trigger self.answers@[i], self.answers@[j]]
                    0 <= i < j < self.answers@.len() implies self.answers@[i].content@
                    != self.answers@[j].content@ by {
                    if j == self.answers@.len() - 1 {
                        assert(contains_text(pre.exclusion@, pre.answers@[i].content@));
                    }
                }
            }
            assert(exactly_one_correct(self.answers@)) by {
                let i = choose|i: int|
                    0 <= i < pre.answers@.len() && (#[trigger] pre.answers@[i]).correct && forall|
                        j: int,
                    | 0 <= j < pre.answers@.len() && j != i ==> !(#[trigger] pre.answers@[j]).correct;
                assert((self.answers@[i]).correct);
            }
        }
        true
    }

    /// How many distractors the local phase aims for: a random count
    /// between one and the remaining slots (zero only when none remain),
    /// so that not every question is filled from the store alone.
    pub fn local_quota(&self, picker: &mut Picker) -> (r: usize)
        ensures
            self.answers@.len() >= ANSWER_COUNT ==> r == 0,
            self.answers@.len() < ANSWER_COUNT ==> 1 <= r <= ANSWER_COUNT - self.answers@.len(),
            final(picker).values@ == old(picker).values@,
            self.answers@.len() < ANSWER_COUNT && old(picker).pos < old(picker).values@.len()
                ==> r == 1 + old(picker).values@[old(picker).pos as int] as nat % ((ANSWER_COUNT
                - self.answers@.len()) as nat),
    {
        let rem = self.remaining_slots();
        if rem == 0 {
            0
        } else {
            1 + picker.pick(rem)
        }
    }

    /// Fills slots from saved words: each candidate in turn becomes an
    /// incorrect answer carrying its record, unless its spelling is
    /// already excluded, up to `limit` additions.
    pub fn add_local(&mut self, candidates: &Vec<WordEntry>, limit: usize)
        requires
            draft_wf(*old(self)),
        ensures
            draft_wf(*final(self)),
            draft_frame(*old(self), *final(self)),
            (final(self).answers@, final(self).exclusion@) == add_local_model(
                old(self).answers@,
                old(self).exclusion@,
                candidates@,
                limit as int,
            ),
    {
        let n = candidates.len();
        let mut i: usize = 0;
        let mut added: usize = 0;
        let ghost a0 = self.answers@;
        let ghost e0 = self.exclusion@;
        proof {
            assert(candidates@.skip(0) =~= candidates@);
        }
        while i < n && added < limit
            invariant
                i <= n == candidates@.len(),
                added <= limit,
                draft_wf(*self),
                draft_frame(*old(self), *self),
                a0 == old(self).answers@,
                e0 == old(self).exclusion@,
                add_local_model(a0, e0, candidates@, limit as int) == add_local_model(
                    self.answers@,
                    self.exclusion@,
                    candidates@.skip(i as int),
                    limit - added,
                ),
            decreases n - i,
        {
            let ghost pre = *self;
            let entry = &candidates[i];
            let ok = self.add_incorrect(entry.word.clone(), Some(entry.uid));
            if ok {
                added = added + 1;
            }
            proof {
                let rest = candidates@.skip(i as int);
                assert(rest[0] == candidates@[i as int]);
                assert(rest.drop_first() =~= candidates@.skip(i as int + 1));
                assert(add_local_model(
                    pre.answers@,
                    pre.exclusion@,
                    rest,
                    limit - (if ok {
                        added - 1
                    } else {
                        added as int
                    }),
                ) == add_local_model(
                    self.answers@,
                    self.exclusion@,
                    candidates@.skip(i as int + 1),
                    limit - added,
                ));
            }
            i = i + 1;
        }
        proof {
            if i == n {
                assert(candidates@.skip(n as int) =~= Seq::<WordEntry>::empty());
            }
        }
    }

    /// Fills slots from supplied random words: each word in turn becomes
    /// an incorrect answer with no record, unless already excluded, up
    /// to `limit` additions.
    pub fn add_external(&mut self, words: &Vec<String>, limit: usize)
        requires
            draft_wf(*old(self)),
        ensures
            draft_wf(*final(self)),
            draft_frame(*old(self), *final(self)),
            (final(self).answers@, final(self).exclusion@) == add_external_model(
                old(self).answers@,
                old(self).exclusion@,
                words@,
                limit as int,
            ),
    {
        let n = words.len();
        let mut i: usize = 0;
        let mut added: usize = 0;
        let ghost a0 = self.answers@;
        let ghost e0 = self.exclusion@;
        proof {
            assert(words@.skip(0) =~= words@);
        }
        while i < n && added < limit
            invariant
                i <= n == words@.len(),
                added <= limit,
                draft_wf(*self),
                draft_frame(*old(self), *self),
                a0 == old(self).answers@,
                e0 == old(self).exclusion@,
                add_external_model(a0, e0, words@, limit as int) == add_external_model(
                    self.answers@,
                    self.exclusion@,
                    words@.skip(i as int),
                    limit - added,
                ),
            decreases n - i,
        {
            let ghost pre = *self;
            let ok = self.add_incorrect(words[i].clone(), None);
            if ok {
                added = added + 1;
            }
            proof {
                let rest = words@.skip(i as int);
                assert(rest[0] == words@[i as int]);
                assert(rest.drop_first() =~= words@.skip(i as int + 1));
                assert(add_external_model(
                    pre.answers@,
                    pre.exclusion@,
                    rest,
                    limit - (if ok {
                        added - 1
                    } else {
                        added as int
                    }),
                ) == add_external_model(
                    self.answers@,
                    self.exclusion@,
                    words@.skip(i as int + 1),
                    limit - added,
                ));
            }
            i = i + 1;
        }
        proof {
            if i == n {
                assert(words@.skip(n as int) =~= Seq::<String>::empty());
            }
        }
    }

    /// Finishes the draft: the invariants carry over to the question.
    pub fn into_question(self) -> (q: Question)
        requires
            draft_wf(self),
        ensures
            q.word_uid == self.word_uid,
            q.question == self.prompt,
            q.answers@ == self.answers@,
            exactly_one_correct(q.answers@),
            distinct_contents(q.answers@),
            no_incorrect_matches(q.answers@, self.tested_word@),
    {
        Question { word_uid: self.word_uid, question: self.prompt, answers: self.answers }
    }
}

/// What the local phase does to the draft, candidate by candidate.
pub open spec fn add_local_model(
    ans: Seq<Answer>,
    ex: Seq<String>,
    cands: Seq<WordEntry>,
    limit: int,
) -> (Seq<Answer>, Seq<String>)
    decreases cands.len(),
{
    if cands.len() == 0 || limit <= 0 {
        (ans, ex)
    } else {
        let e = cands[0];
        if !contains_text(ex, e.word@) && ans.len() < ANSWER_COUNT {
            add_local_model(
                ans.push(Answer { content: e.word, correct: false, word_uid: Some(e.uid) }),
                ex.push(e.word),
                cands.drop_first(),
                limit - 1,
            )
        } else {
            add_local_model(ans, ex, cands.drop_first(), limit)
        }
    }
}

/// What the external phase does to the draft, word by word.
pub open spec fn add_external_model(
    ans: Seq<Answer>,
    ex: Seq<String>,
    words: Seq<String>,
    limit: int,
) -> (Seq<Answer>, Seq<String>)
    decreases words.len(),
{
    if words.len() == 0 || limit <= 0 {
        (ans, ex)
    } else {
        let w = words[0];
        if !contains_text(ex, w@) && ans.len() < ANSWER_COUNT {
            add_external_model(
                ans.push(Answer { content: w, correct: false, word_uid: None }),
                ex.push(w),
                words.drop_first(),
                limit - 1,
            )
        } else {
            add_external_model(ans, ex, words.drop_first(), limit)
        }
    }
}

/// Where position `i` of `r.push(s[k]) + s.remove(k)` comes from in
/// `r + s`.
pub open spec fn moved_from(rl: int, k: int, i: int) -> int {
    if i < rl {
        i
    } else if i == rl {
        rl + k
    } else if i <= rl + k {
        i - 1
    } else {
        i
    }
}

/// Where position `j` of `r + s` lands in `r.push(s[k]) + s.remove(k)`.
pub open spec fn moved_to(rl: int, k: int, j: int) -> int {
    if j < rl {
        j
    } else if j == rl + k {
        rl
    } else if j < rl + k {
        j + 1
    } else {
        j
    }
}

/// Moving one element of `s` to the end of `r` keeps the question
/// invariants of the combined sequence.
proof fn lemma_move_preserves(r: Seq<Answer>, s: Seq<Answer>, k: int)
    requires
        0 <= k < s.len(),
    ensures
        ({
            let before = r + s;
            let after = r.push(s[k]) + s.remove(k);
            &&& after.len() == before.len()
            &&& (exactly_one_correct(before) ==> exactly_one_correct(after))
            &&& (distinct_contents(before) ==> distinct_contents(after))
            &&& forall|w: Seq<char>|
                no_incorrect_matches(before, w) ==> no_incorrect_matches(after, w)
        }),
{
    let before = r + s;
    let after = r.push(s[k]) + s.remove(k);
    let rl = r.len() as int;
    let n = before.len() as int;
    assert(after.len() == n);
    assert forall|i: int| 0 <= i < n implies {
        &&& 0 <= moved_from(rl, k, i) < n
        &&& #[trigger] after[i] == before[moved_from(rl, k, i)]
        &&& moved_to(rl, k, moved_from(rl, k, i)) == i
    } by {
        if i < rl {
        } else if i == rl {
            assert(after[i] == s[k]);
        } else if i <= rl + k {
            assert(after[i] == s.remove(k)[i - rl - 1]);
            assert(s.remove(k)[i - rl - 1] == s[i - rl - 1]);
        } else {
            assert(after[i] == s.remove(k)[i - rl - 1]);
            assert(s.remove(k)[i - rl - 1] == s[i - rl]);
        }
    }
    assert forall|j: int| 0 <= j < n implies {
        &&& 0 <= moved_to(rl, k, j) < n
        &&& moved_from(rl, k, #[trigger] moved_to(rl, k, j)) == j
    } by {}
    if exactly_one_correct(before) {
        let w = choose|i: int|
            0 <= i < before.len() && (#[trigger] before[i]).correct && forall|j: int|
                0 <= j < before.len() && j != i ==> !(#[trigger] before[j]).correct;
        let d = moved_to(rl, k, w);
        assert(after[d] == before[w]);
        assert forall|j: int| 0 <= j < n && j != d implies !(#[trigger] after[j]).correct by {
            assert(after[j] == before[moved_from(rl, k, j)]);
            assert(moved_from(rl, k, j) != w);
        }
        assert(exactly_one_correct(after));
    }
    if distinct_contents(before) {
        assert forall|i: int, j: int|
            #![trigger after[i], after[j]]
            0 <= i < j < n implies after[i].content@ != after[j].content@ by {
            let mi = moved_from(rl, k, i);
            let mj = moved_from(rl, k, j);
            assert(mi != mj);
            if mi < mj {
                assert(before[mi].content@ != before[mj].content@);
            } else {
                assert(before[mj].content@ != before[mi].content@);
            }
        }
    }
    assert forall|w: Seq<char>| no_incorrect_matches(before, w) implies no_incorrect_matches(
        after,
        w,
    ) by {
        if no_incorrect_matches(before, w) {
            assert forall|i: int| 0 <= i < n implies (!(#[trigger] after[i]).correct
                ==> after[i].content@ != w) by {
                assert(after[i] == before[moved_from(rl, k, i)]);
            }
        }
    }
}

/// Shuffles the answers in place: the same answers in a random order,
/// with every question invariant kept.
pub fn shuffle_answers(answers: &mut Vec<Answer>, picker: &mut Picker)
    ensures
        final(answers)@.to_multiset() == old(answers)@.to_multiset(),
        final(answers)@.len() == old(answers)@.len(),
        exactly_one_correct(old(answers)@) ==> exactly_one_correct(final(answers)@),
        distinct_contents(old(answers)@) ==> distinct_contents(final(answers)@),
        forall|w: Seq<char>|
            no_incorrect_matches(old(answers)@, w) ==> no_incorrect_matches(final(answers)@, w),
{
    broadcast use vstd::seq_lib::group_to_multiset_ensures;
    broadcast use vstd::multiset::group_multiset_axioms;

    let ghost orig = answers@;
    let mut result: Vec<Answer> = Vec::new();
    proof {
        assert(result@ + answers@ =~= orig);
    }
    while answers.len() > 0
        invariant
            result@.len() + answers@.len() == orig.len(),
            result@.to_multiset().add(answers@.to_multiset()) == orig.to_multiset(),
            exactly_one_correct(orig) ==> exactly_one_correct(result@ + answers@),
            distinct_contents(orig) ==> distinct_contents(result@ + answers@),
            forall|w: Seq<char>|
                no_incorrect_matches(orig, w) ==> no_incorrect_matches(result@ + answers@, w),
        decreases answers@.len(),
    {
        let k = picker.pick(answers.len());
        let ghost pre_r = result@;
        let ghost pre_s = answers@;
        let a = answers.remove(k);
        result.push(a);
        proof {
            lemma_move_preserves(pre_r, pre_s, k as int);
            assert(result@ + answers@ == pre_r.push(pre_s[k as int]) + pre_s.remove(k as int));
            assert(pre_s.contains(pre_s[k as int]));
            vstd::seq_lib::to_multiset_contains(pre_s, pre_s[k as int]);
            vstd::seq_lib::to_multiset_remove(pre_s, k as int);
            vstd::seq_lib::to_multiset_build(pre_r, a);
            assert(result@.to_multiset().add(answers@.to_multiset()) =~= pre_r.to_multiset().add(
                pre_s.to_multiset(),
            ));
        }
    }
    proof {
        assert(result@ + answers@ =~= result@);
        assert(answers@.to_multiset() =~= Multiset::<Answer>::empty());
        assert(result@.to_multiset() =~= orig.to_multiset());
    }
    *answers = result;
}

/// A planned synonym/antonym question: the lexical choices made before
/// any store lookup.
#[derive(Debug)]
pub struct SynonymPlan {
    pub is_synonym: bool,
    pub synonym: String,
    pub antonym: String,
    pub tested_word: String,
    pub exclusion: Vec<String>,
}

/// The plan's choices are distinct, differ from the tested word, and
/// stand in its exclusion set.
pub open spec fn synonym_plan_wf(p: SynonymPlan) -> bool {
    &&& p.synonym@ != p.antonym@
    &&& p.synonym@ != p.tested_word@
    &&& p.antonym@ != p.tested_word@
    &&& contains_text(p.exclusion@, p.synonym@)
    &&& contains_text(p.exclusion@, p.antonym@)
    &&& contains_text(p.exclusion@, p.tested_word@)
}

/// Definition `j` of this meaning supports the synonym/antonym
/// strategy: a synonym and an antonym are reachable at definition or
/// meaning level.
pub open spec fn def_qualifies(m: WordMeaning, j: int) -> bool {
    0 <= j < m.definitions@.len() && {
        let d = m.definitions@[j];
        &&& (d.synonyms@.len() > 0 || m.synonyms@.len() > 0)
        &&& (d.antonyms@.len() > 0 || m.antonyms@.len() > 0)
    }
}

/// Some meaning has a qualifying definition.
pub open spec fn has_qualifying_def(w: Word) -> bool {
    exists|i: int, j: int|
        0 <= i < w.meanings@.len() && #[trigger] def_qualifies(w.meanings@[i], j)
}

/// All qualifying (meaning, definition) index pairs, in order.
fn qualifying_pairs(word: &Word) -> (pairs: Vec<(usize, usize)>)
    ensures
        forall|t: int|
            0 <= t < pairs@.len() ==> {
                let p = #[trigger] pairs@[t];
                &&& p.0 < word.meanings@.len()
                &&& def_qualifies(word.meanings@[p.0 as int], p.1 as int)
            },
        pairs@.len() == 0 ==> !has_qualifying_def(*word),
{
    let mut pairs: Vec<(usize, usize)> = Vec::new();
    let nm = word.meanings.len();
    let mut i: usize = 0;
    while i < nm
        invariant
            i <= nm == word.meanings@.len(),
            forall|t: int|
                0 <= t < pairs@.len() ==> {
                    let p = #[trigger] pairs@[t];
                    &&& p.0 < word.meanings@.len()
                    &&& def_qualifies(word.meanings@[p.0 as int], p.1 as int)
                },
            pairs@.len() == 0 ==> forall|a: int, b: int|
                0 <= a < i ==> !(#[trigger] def_qualifies(word.meanings@[a], b)),
        decreases nm - i,
    {
        let m = &word.meanings[i];
        let nd = m.definitions.len();
        let mut j: usize = 0;
        while j < nd
            invariant
                i < word.meanings@.len(),
                m == word.meanings@[i as int],
                j <= nd == m.definitions@.len(),
                forall|t: int|
                    0 <= t < pairs@.len() ==> {
                        let p = #[trigger] pairs@[t];
                        &&& p.0 < word.meanings@.len()
                        &&& def_qualifies(word.meanings@[p.0 as int], p.1 as int)
                    },
                pairs@.len() == 0 ==> forall|a: int, b: int|
                    0 <= a < i ==> !(#[trigger] def_qualifies(word.meanings@[a], b)),
                pairs@.len() == 0 ==> forall|b: int| 0 <= b < j ==> !def_qualifies(
                    word.meanings@[i as int],
                    b,
                ),
            decreases nd - j,
        {
            let d = &m.definitions[j];
            if (d.synonyms.len() > 0 || m.synonyms.len() > 0) && (d.antonyms.len() > 0
                || m.antonyms.len() > 0) {
                pairs.push((i, j));
            }
            j = j + 1;
        }
        i = i + 1;
    }
    pairs
}

/// The texts of `own` then `defs`, without `avoid1` (and `avoid2`, when
/// given).
fn filtered_pool(
    own: &Vec<String>,
    defs: &Vec<String>,
    avoid1: &String,
    avoid2: Option<&String>,
) -> (pool: Vec<String>)
    ensures
        forall|t: int|
            0 <= t < pool@.len() ==> {
                let x = (#[trigger] pool@[t])@;
                &&& x != avoid1@
                &&& (avoid2 matches Some(a) ==> x != a@)
                &&& (own.deep_view() + defs.deep_view()).contains(x)
            },
        pool@.len() == 0 ==> forall|j: int|
            0 <= j < own@.len() ==> (#[trigger] own@[j])@ == avoid1@ || (avoid2 matches Some(a)
                && own@[j]@ == a@),
        pool@.len() == 0 ==> forall|j: int|
            0 <= j < defs@.len() ==> (#[trigger] defs@[j])@ == avoid1@ || (avoid2 matches Some(a)
                && defs@[j]@ == a@),
{
    let mut pool: Vec<String> = Vec::new();
    let n1 = own.len();
    let mut j: usize = 0;
    while j < n1
        invariant
            j <= n1 == own@.len(),
            forall|t: int|
                0 <= t < pool@.len() ==> {
                    let x = (#[trigger] pool@[t])@;
                    &&& x != avoid1@
                    &&& (avoid2 matches Some(a) ==> x != a@)
                    &&& (own.deep_view() + defs.deep_view()).contains(x)
                },
            pool@.len() == 0 ==> forall|t: int|
                0 <= t < j ==> (#[trigger] own@[t])@ == avoid1@ || (avoid2 matches Some(a)
                    && own@[t]@ == a@),
        decreases n1 - j,
    {
        let keep = own[j] != *avoid1 && match avoid2 {
            Some(a) => own[j] != *a,
            None => true,
        };
        if keep {
            pool.push(own[j].clone());
            proof {
                assert((own.deep_view() + defs.deep_view())[j as int] == own@[j as int]@);
            }
        }
        j = j + 1;
    }
    let n2 = defs.len();
    let mut k: usize = 0;
    while k < n2
        invariant
            k <= n2 == defs@.len(),
            n1 == own@.len(),
            forall|t: int|
                0 <= t < pool@.len() ==> {
                    let x = (#[trigger] pool@[t])@;
                    &&& x != avoid1@
                    &&& (avoid2 matches Some(a) ==> x != a@)
                    &&& (own.deep_view() + defs.deep_view()).contains(x)
                },
            pool@.len() == 0 ==> forall|t: int|
                0 <= t < own@.len() ==> (#[trigger] own@[t])@ == avoid1@ || (avoid2 matches Some(a)
                    && own@[t]@ == a@),
            pool@.len() == 0 ==> forall|t: int|
                0 <= t < k ==> (#[trigger] defs@[t])@ == avoid1@ || (avoid2 matches Some(a)
                    && defs@[t]@ == a@),
        decreases n2 - k,
    {
        let keep = defs[k] != *avoid1 && match avoid2 {
            Some(a) => defs[k] != *a,
            None => true,
        };
        if keep {
            pool.push(defs[k].clone());
            proof {
                assert((own.deep_view() + defs.deep_view())[own@.len() + k as int]
                    == defs@[k as int]@);
            }
        }
        k = k + 1;
    }
    pool
}

/// What a successful synonym/antonym plan promises of its entry: both
/// choices come from one qualifying meaning-and-definition pair, the
/// synonym from its synonym sets and the antonym from its antonym sets.
pub open spec fn synonym_plan_ok(p: SynonymPlan, w: Word) -> bool {
    &&& synonym_plan_wf(p)
    &&& p.tested_word == w.word
    &&& all_synonyms_spec(w).contains(p.synonym@)
    &&& all_antonyms_spec(w).contains(p.antonym@)
    &&& exists|i: int, j: int|
        0 <= i < w.meanings@.len() && #[trigger] def_qualifies(w.meanings@[i], j) && ({
            let m = w.meanings@[i];
            let d = m.definitions@[j];
            &&& (m.synonyms.deep_view() + d.synonyms.deep_view()).contains(p.synonym@)
            &&& (m.antonyms.deep_view() + d.antonyms.deep_view()).contains(p.antonym@)
        })
    &&& p.exclusion.deep_view() =~= seq![w.word@, p.synonym@, p.antonym@] + all_synonyms_spec(w)
        + all_antonyms_spec(w)
}

/// Plans a synonym/antonym question from the entry: picks a qualifying
/// meaning and definition, a synonym for the correct answer and an
/// antonym for a distractor (both always distinct from the tested word
/// and from each other), and the exclusion set: the word, the choices,
/// and every synonym and antonym of the word.  Fails with `Unsupported`
/// whenever the entry has no qualifying definition; an entry whose only
/// reachable synonyms or antonyms are the tested word itself (or whose
/// every antonym equals the chosen synonym) is also refused, since the
/// tested word never stands among the answers and no text repeats.  On
/// an entry with a qualifying definition and no such degenerate
/// self-reference it always succeeds.
pub fn plan_word_synonym(word: &Word, is_synonym: bool, picker: &mut Picker) -> (r: Result<
    SynonymPlan,
    QuestionGenerationError,
>)
    ensures
        r matches Err(e) ==> e is Unsupported,
        !has_qualifying_def(*word) ==> r is Err,
        r matches Ok(p) ==> synonym_plan_ok(p, *word) && p.is_synonym == is_synonym,
        has_qualifying_def(*word) && clean_entry(*word) ==> r is Ok,
{
    let ghost fm_s = |m: WordMeaning| meaning_synonyms(m);
    let ghost fm_a = |m: WordMeaning| meaning_antonyms(m);
    let pairs = qualifying_pairs(word);
    if pairs.len() == 0 {
        return Err(QuestionGenerationError::Unsupported);
    }
    let pi = picker.pick(pairs.len());
    let (mi, di) = pairs[pi];
    let m = &word.meanings[mi];
    let d = &m.definitions[di];
    let ghost fd_s = |d: WordDefinition| d.synonyms.deep_view();
    let ghost fd_a = |d: WordDefinition| d.antonyms.deep_view();
    let syn_pool = filtered_pool(&m.synonyms, &d.synonyms, &word.word, None);
    if syn_pool.len() == 0 {
        proof {
            if clean_entry(*word) && has_qualifying_def(*word) {
                if m.synonyms@.len() > 0 {
                    assert(m.synonyms@[0]@ == word.word@);
                    lemma_meaning_level_member(
                        m.synonyms,
                        m.definitions@.flat_map(fd_s),
                        0,
                    );
                    lemma_flat_map_member(word.meanings@, fm_s, mi as int, word.word@);
                } else {
                    assert(d.synonyms@.len() > 0);
                    assert(d.synonyms@[0]@ == word.word@);
                    assert(d.synonyms.deep_view()[0] == word.word@);
                    lemma_flat_map_member(m.definitions@, fd_s, di as int, word.word@);
                    lemma_def_level_member(
                        m.synonyms,
                        m.definitions@.flat_map(fd_s),
                        word.word@,
                    );
                    lemma_flat_map_member(word.meanings@, fm_s, mi as int, word.word@);
                }
                assert(false);
            }
        }
        return Err(QuestionGenerationError::Unsupported);
    }
    let synonym = syn_pool[picker.pick(syn_pool.len())].clone();
    proof {
        let x = synonym@;
        let combined = m.synonyms.deep_view() + d.synonyms.deep_view();
        assert(combined.contains(x));
        let kk = choose|kk: int| 0 <= kk < combined.len() && #[trigger] combined[kk] == x;
        if kk < m.synonyms.deep_view().len() {
            lemma_meaning_level_member(m.synonyms, m.definitions@.flat_map(fd_s), kk);
        } else {
            assert(d.synonyms.deep_view().contains(x)) by {
                assert(d.synonyms.deep_view()[kk - m.synonyms.deep_view().len()] == x);
            }
            lemma_flat_map_member(m.definitions@, fd_s, di as int, x);
            lemma_def_level_member(m.synonyms, m.definitions@.flat_map(fd_s), x);
        }
        lemma_flat_map_member(word.meanings@, fm_s, mi as int, x);
        assert(all_synonyms_spec(*word).contains(x));
    }
    let ant_pool = filtered_pool(&m.antonyms, &d.antonyms, &word.word, Some(&synonym));
    if ant_pool.len() == 0 {
        proof {
            if clean_entry(*word) && has_qualifying_def(*word) {
                if m.antonyms@.len() > 0 {
                    let x = m.antonyms@[0]@;
                    lemma_meaning_level_member(
                        m.antonyms,
                        m.definitions@.flat_map(fd_a),
                        0,
                    );
                    lemma_flat_map_member(word.meanings@, fm_a, mi as int, x);
                    assert(all_antonyms_spec(*word).contains(x));
                    assert(x == word.word@ || x == synonym@);
                } else {
                    assert(d.antonyms@.len() > 0);
                    let x = d.antonyms@[0]@;
                    assert(d.antonyms.deep_view()[0] == x);
                    lemma_flat_map_member(m.definitions@, fd_a, di as int, x);
                    lemma_def_level_member(
                        m.antonyms,
                        m.definitions@.flat_map(fd_a),
                        x,
                    );
                    lemma_flat_map_member(word.meanings@, fm_a, mi as int, x);
                    assert(all_antonyms_spec(*word).contains(x));
                    assert(x == word.word@ || x == synonym@);
                }
                assert(false);
            }
        }
        return Err(QuestionGenerationError::Unsupported);
    }
    let antonym = ant_pool[picker.pick(ant_pool.len())].clone();
    proof {
        let x = antonym@;
        let combined = m.antonyms.deep_view() + d.antonyms.deep_view();
        assert(combined.contains(x));
        let kk = choose|kk: int| 0 <= kk < combined.len() && #[trigger] combined[kk] == x;
        if kk < m.antonyms.deep_view().len() {
            lemma_meaning_level_member(m.antonyms, m.definitions@.flat_map(fd_a), kk);
        } else {
            assert(d.antonyms.deep_view().contains(x)) by {
                assert(d.antonyms.deep_view()[kk - m.antonyms.deep_view().len()] == x);
            }
            lemma_flat_map_member(m.definitions@, fd_a, di as int, x);
            lemma_def_level_member(m.antonyms, m.definitions@.flat_map(fd_a), x);
        }
        lemma_flat_map_member(word.meanings@, fm_a, mi as int, x);
        assert(all_antonyms_spec(*word).contains(x));
    }
    let mut exclusion: Vec<String> = Vec::new();
    exclusion.push(word.word.clone());
    exclusion.push(synonym.clone());
    exclusion.push(antonym.clone());
    let syns = word.all_synonyms();
    let ants = word.all_antonyms();
    extend_strings(&mut exclusion, &syns);
    extend_strings(&mut exclusion, &ants);
    proof {
        assert(exclusion.deep_view() =~= seq![word.word@, synonym@, antonym@] + all_synonyms_spec(
            *word,
        ) + all_antonyms_spec(*word));
        assert(exclusion@[0]@ == word.word@);
        assert(exclusion@[1]@ == synonym@);
        assert(exclusion@[2]@ == antonym@);
        assert(def_qualifies(word.meanings@[mi as int], di as int));
        assert((word.meanings@[mi as int].synonyms.deep_view()
            + word.meanings@[mi as int].definitions@[di as int].synonyms.deep_view()).contains(
            synonym@,
        ));
        assert((word.meanings@[mi as int].antonyms.deep_view()
            + word.meanings@[mi as int].definitions@[di as int].antonyms.deep_view()).contains(
            antonym@,
        ));
        assert(has_qualifying_def(*word));
    }
    Ok(
        SynonymPlan {
            is_synonym,
            synonym,
            antonym,
            tested_word: word.word.clone(),
            exclusion,
        },
    )
}

/// The prompt a synonym/antonym question shows.
pub open spec fn synonym_prompt_spec(w: Seq<char>, is_synonym: bool) -> Seq<char> {
    "What is the "@ + (if is_synonym {
        "synonym"@
    } else {
        "antonym"@
    }) + " of "@ + w + "?"@
}

/// Assembles the planned synonym/antonym question into a draft holding
/// the two strategy answers: the synonym, correct exactly when the
/// question asks for the synonym, and the antonym, with the records the
/// caller looked the two texts up to.
pub fn assemble_word_synonym(
    plan: SynonymPlan,
    word_uid: i64,
    synonym_uid: Option<i64>,
    antonym_uid: Option<i64>,
) -> (d: QuestionDraft)
    requires
        synonym_plan_wf(plan),
    ensures
        draft_wf(d),
        d.word_uid == word_uid,
        d.tested_word == plan.tested_word,
        d.exclusion@ == plan.exclusion@,
        d.prompt@ == synonym_prompt_spec(plan.tested_word@, plan.is_synonym),
        d.answers@ =~= seq![
            Answer { content: plan.synonym, correct: plan.is_synonym, word_uid: synonym_uid },
            Answer { content: plan.antonym, correct: !plan.is_synonym, word_uid: antonym_uid },
        ],
{
    let mut prompt = String::from_str("What is the ");
    prompt.append(
        if plan.is_synonym {
            "synonym"
        } else {
            "antonym"
        },
    );
    prompt.append(" of ");
    prompt.append(plan.tested_word.as_str());
    prompt.append("?");
    let mut answers: Vec<Answer> = Vec::new();
    answers.push(
        Answer {
            content: plan.synonym.clone(),
            correct: plan.is_synonym,
            word_uid: synonym_uid,
        },
    );
    answers.push(
        Answer {
            content: plan.antonym.clone(),
            correct: !plan.is_synonym,
            word_uid: antonym_uid,
        },
    );
    let d = QuestionDraft {
        word_uid,
        tested_word: plan.tested_word,
        prompt,
        answers,
        exclusion: plan.exclusion,
    };
    proof {
        assert(exactly_one_correct(d.answers@)) by {
            if plan.is_synonym {
                assert((d.answers@[0]).correct);
            } else {
                assert((d.answers@[1]).correct);
            }
        }
    }
    d
}

/// The definition texts one meaning offers.
pub open spec fn meaning_definition_texts(m: WordMeaning) -> Seq<Seq<char>> {
    m.definitions@.map_values(|d: WordDefinition| d.definition@)
}

/// Every definition text of the entry.
pub open spec fn all_definition_texts(w: Word) -> Seq<Seq<char>> {
    w.meanings@.flat_map(|m: WordMeaning| meaning_definition_texts(m))
}

/// Index of the first meaning with the given part of speech; -1 when no
/// meaning has it.
pub open spec fn first_meaning_with_pos(s: Seq<WordMeaning>, pos: PartOfSpeech) -> int
    decreases s.len(),
{
    if s.len() == 0 {
        -1
    } else if s[0].part_of_speech == pos {
        0
    } else {
        let r = first_meaning_with_pos(s.drop_first(), pos);
        if r < 0 {
            -1
        } else {
            r + 1
        }
    }
}

proof fn lemma_first_meaning_with_pos(s: Seq<WordMeaning>, pos: PartOfSpeech, i: int)
    requires
        0 <= i < s.len(),
        s[i].part_of_speech == pos,
        forall|t: int| 0 <= t < i ==> (#[trigger] s[t]).part_of_speech != pos,
    ensures
        first_meaning_with_pos(s, pos) == i,
    decreases i,
{
    if i > 0 {
        let rest = s.drop_first();
        assert(forall|t: int| 0 <= t < i - 1 ==> (#[trigger] rest[t]).part_of_speech != pos);
        assert(rest[i - 1] == s[i]);
        lemma_first_meaning_with_pos(rest, pos, i - 1);
    }
}

proof fn lemma_no_meaning_with_pos(s: Seq<WordMeaning>, pos: PartOfSpeech)
    requires
        forall|t: int| 0 <= t < s.len() ==> (#[trigger] s[t]).part_of_speech != pos,
    ensures
        first_meaning_with_pos(s, pos) == -1,
    decreases s.len(),
{
    if s.len() > 0 {
        let rest = s.drop_first();
        assert(forall|t: int| 0 <= t < rest.len() ==> (#[trigger] rest[t]).part_of_speech != pos);
        lemma_no_meaning_with_pos(rest, pos);
    }
}

/// Every meaning of the entry offers at least one definition.
pub open spec fn every_meaning_defined(w: Word) -> bool {
    forall|i: int| 0 <= i < w.meanings@.len() ==> (#[trigger] w.meanings@[i]).definitions@.len() > 0
}

/// A planned definition-to-word question: the chosen definition text for
/// the prompt, and possibly an antonym distractor.
#[derive(Debug)]
pub struct DefinitionPlan {
    pub definition: String,
    pub antonym: Option<String>,
    pub tested_word: String,
    pub exclusion: Vec<String>,
}

/// The plan's exclusion set covers the tested word and the distractor,
/// which differs from the word.
pub open spec fn definition_plan_wf(p: DefinitionPlan) -> bool {
    &&& contains_text(p.exclusion@, p.tested_word@)
    &&& (p.antonym matches Some(a) ==> a@ != p.tested_word@ && contains_text(p.exclusion@, a@))
}

/// What a successful definition-to-word plan promises of its entry: the
/// prompt quotes one definition of one meaning, and any antonym
/// distractor comes from that definition's antonym set when it has one,
/// else from that meaning's.
pub open spec fn definition_plan_ok(p: DefinitionPlan, w: Word) -> bool {
    &&& definition_plan_wf(p)
    &&& p.tested_word == w.word
    &&& all_definition_texts(w).contains(p.definition@)
    &&& (p.antonym matches Some(a) ==> all_antonyms_spec(w).contains(a@))
    &&& exists|i: int, j: int|
        #![trigger w.meanings@[i].definitions@[j]]
        0 <= i < w.meanings@.len() && 0 <= j < w.meanings@[i].definitions@.len() && ({
            let m = w.meanings@[i];
            let d = m.definitions@[j];
            &&& d.definition@ == p.definition@
            &&& (p.antonym matches Some(a) ==> (if d.antonyms@.len() > 0 {
                d.antonyms.deep_view().contains(a@)
            } else {
                m.antonyms.deep_view().contains(a@)
            }))
        })
    &&& p.exclusion.deep_view() =~= seq![w.word@] + (match p.antonym {
        Some(a) => seq![a@],
        None => Seq::<Seq<char>>::empty(),
    }) + all_synonyms_spec(w)
}

/// Plans a definition-to-word question: picks a meaning and one of its
/// definitions for the prompt (the word itself will be the correct
/// answer), sometimes adds one antonym as a distractor, and excludes the
/// word, that distractor, and every synonym of the word.  Fails with
/// `Unsupported` only when the entry has no meanings or the picked
/// meaning has no definition; with every meaning defined it succeeds.
pub fn plan_definition_word(word: &Word, picker: &mut Picker) -> (r: Result<
    DefinitionPlan,
    QuestionGenerationError,
>)
    ensures
        r matches Err(e) ==> e is Unsupported,
        r matches Ok(p) ==> definition_plan_ok(p, *word),
        word.meanings@.len() > 0 && every_meaning_defined(*word) ==> r is Ok,
{
    let ghost fm_a = |m: WordMeaning| meaning_antonyms(m);
    let ghost fm_t = |m: WordMeaning| meaning_definition_texts(m);
    let ghost fd_a = |d: WordDefinition| d.antonyms.deep_view();
    if word.meanings.len() == 0 {
        return Err(QuestionGenerationError::Unsupported);
    }
    let mi = picker.pick(word.meanings.len());
    let m = &word.meanings[mi];
    if m.definitions.len() == 0 {
        return Err(QuestionGenerationError::Unsupported);
    }
    let di = picker.pick(m.definitions.len());
    let d = &m.definitions[di];
    let definition = d.definition.clone();
    proof {
        assert(meaning_definition_texts(*m)[di as int] == definition@);
        lemma_flat_map_member(word.meanings@, fm_t, mi as int, definition@);
    }
    let empty_pool: Vec<String> = Vec::new();
    let def_level = d.antonyms.len() > 0;
    let pool = if def_level {
        filtered_pool(&d.antonyms, &empty_pool, &word.word, None)
    } else {
        filtered_pool(&m.antonyms, &empty_pool, &word.word, None)
    };
    let antonym: Option<String> = if pool.len() > 0 && picker.chance_tenths(6) {
        let a = pool[picker.pick(pool.len())].clone();
        proof {
            let x = a@;
            if def_level {
                let combined = d.antonyms.deep_view() + empty_pool.deep_view();
                assert(combined.contains(x));
                let kk = choose|kk: int| 0 <= kk < combined.len() && #[trigger] combined[kk] == x;
                assert(d.antonyms.deep_view()[kk] == x);
                assert(d.antonyms.deep_view().contains(x));
                lemma_flat_map_member(m.definitions@, fd_a, di as int, x);
                lemma_def_level_member(m.antonyms, m.definitions@.flat_map(fd_a), x);
            } else {
                let combined = m.antonyms.deep_view() + empty_pool.deep_view();
                assert(combined.contains(x));
                let kk = choose|kk: int| 0 <= kk < combined.len() && #[trigger] combined[kk] == x;
                assert(m.antonyms.deep_view()[kk] == x);
                assert(m.antonyms.deep_view().contains(x));
                lemma_meaning_level_member(m.antonyms, m.definitions@.flat_map(fd_a), kk);
            }
            lemma_flat_map_member(word.meanings@, fm_a, mi as int, x);
            assert(all_antonyms_spec(*word).contains(x));
        }
        Some(a)
    } else {
        None
    };
    let mut exclusion: Vec<String> = Vec::new();
    exclusion.push(word.word.clone());
    match &antonym {
        Some(a) => {
            exclusion.push(a.clone());
        },
        None => {},
    }
    let syns = word.all_synonyms();
    extend_strings(&mut exclusion, &syns);
    proof {
        assert(exclusion.deep_view() =~= seq![word.word@] + (match antonym {
            Some(a) => seq![a@],
            None => Seq::<Seq<char>>::empty(),
        }) + all_synonyms_spec(*word));
        assert(exclusion@[0]@ == word.word@);
        if antonym is Some {
            assert(exclusion@[1]@ == antonym->0@);
        }
        let mm = word.meanings@[mi as int];
        let dd = mm.definitions@[di as int];
        assert(dd.definition@ == definition@);
        match &antonym {
            Some(a) => {
                assert(dd.antonyms@.len() > 0 ==> dd.antonyms.deep_view().contains(a@));
                assert(dd.antonyms@.len() == 0 ==> mm.antonyms.deep_view().contains(a@));
            },
            None => {},
        }
    }
    Ok(DefinitionPlan { definition, antonym, tested_word: word.word.clone(), exclusion })
}

/// The prompt a definition-to-word question shows.
pub open spec fn definition_prompt_spec(def: Seq<char>) -> Seq<char> {
    "What word matches the following definition? "@ + def
}

/// Assembles the planned definition-to-word question: the tested word is
/// the correct answer, carrying its own record; the antonym distractor,
/// when planned, carries the record the caller looked it up to.
pub fn assemble_definition_word(plan: DefinitionPlan, word_uid: i64, antonym_uid: Option<i64>) -> (d:
    QuestionDraft)
    requires
        definition_plan_wf(plan),
    ensures
        draft_wf(d),
        d.word_uid == word_uid,
        d.tested_word == plan.tested_word,
        d.exclusion@ == plan.exclusion@,
        d.prompt@ == definition_prompt_spec(plan.definition@),
        d.answers@ =~= seq![
            Answer { content: plan.tested_word, correct: true, word_uid: Some(word_uid) },
        ] + (match plan.antonym {
            Some(a) => seq![Answer { content: a, correct: false, word_uid: antonym_uid }],
            None => Seq::<Answer>::empty(),
        }),
{
    let mut prompt = String::from_str("What word matches the following definition? ");
    prompt.append(plan.definition.as_str());
    let mut answers: Vec<Answer> = Vec::new();
    answers.push(
        Answer { content: plan.tested_word.clone(), correct: true, word_uid: Some(word_uid) },
    );
    match &plan.antonym {
        Some(a) => {
            answers.push(Answer { content: a.clone(), correct: false, word_uid: antonym_uid });
        },
        None => {},
    }
    let d = QuestionDraft {
        word_uid,
        tested_word: plan.tested_word,
        prompt,
        answers,
        exclusion: plan.exclusion,
    };
    proof {
        assert(exactly_one_correct(d.answers@)) by {
            assert((d.answers@[0]).correct);
        }
    }
    d
}

/// A planned word-to-definition question: the chosen definition is the
/// correct answer; distractors will be definitions of these antonyms,
/// looked up by the caller, restricted to the same part of speech.
#[derive(Debug)]
pub struct WordDefinitionPlan {
    pub part_of_speech: PartOfSpeech,
    pub definition: String,
    pub antonym_candidates: Vec<String>,
    pub tested_word: String,
    pub exclusion: Vec<String>,
}

/// The plan's exclusion set covers the tested word and the correct
/// definition text.
pub open spec fn word_definition_plan_wf(p: WordDefinitionPlan) -> bool {
    &&& contains_text(p.exclusion@, p.tested_word@)
    &&& contains_text(p.exclusion@, p.definition@)
}

/// What a successful word-to-definition plan promises of its entry: the
/// correct answer quotes one definition of one meaning, the required
/// part of speech is that meaning's, and every antonym candidate comes
/// from that definition's antonym set when it has one, else from that
/// meaning's.
pub open spec fn word_definition_plan_ok(p: WordDefinitionPlan, w: Word) -> bool {
    &&& word_definition_plan_wf(p)
    &&& p.tested_word == w.word
    &&& all_definition_texts(w).contains(p.definition@)
    &&& exists|i: int, j: int|
        #![trigger w.meanings@[i].definitions@[j]]
        0 <= i < w.meanings@.len() && 0 <= j < w.meanings@[i].definitions@.len() && ({
            let m = w.meanings@[i];
            let d = m.definitions@[j];
            &&& d.definition@ == p.definition@
            &&& m.part_of_speech == p.part_of_speech
            &&& forall|t: int|
                0 <= t < p.antonym_candidates@.len() ==> (if d.antonyms@.len() > 0 {
                    d.antonyms.deep_view()
                } else {
                    m.antonyms.deep_view()
                }).contains((#[trigger] p.antonym_candidates@[t])@)
        })
    &&& forall|t: int|
        0 <= t < p.antonym_candidates@.len() ==> all_antonyms_spec(w).contains(
            (#[trigger] p.antonym_candidates@[t])@,
        )
    &&& p.exclusion.deep_view() =~= seq![w.word@, p.definition@] + all_synonyms_spec(w)
        + all_antonyms_spec(w)
}

/// Shuffles a list of texts.
fn shuffle_strings(v: &mut Vec<String>, picker: &mut Picker)
    ensures
        final(v)@.to_multiset() == old(v)@.to_multiset(),
{
    broadcast use vstd::seq_lib::group_to_multiset_ensures;
    broadcast use vstd::multiset::group_multiset_axioms;

    let ghost orig = v@;
    let mut result: Vec<String> = Vec::new();
    while v.len() > 0
        invariant
            result@.to_multiset().add(v@.to_multiset()) == orig.to_multiset(),
        decreases v@.len(),
    {
        let k = picker.pick(v.len());
        let ghost pre_r = result@;
        let ghost pre_s = v@;
        let a = v.remove(k);
        result.push(a);
        proof {
            assert(pre_s.contains(pre_s[k as int]));
            vstd::seq_lib::to_multiset_contains(pre_s, pre_s[k as int]);
            vstd::seq_lib::to_multiset_remove(pre_s, k as int);
            vstd::seq_lib::to_multiset_build(pre_r, a);
            assert(result@.to_multiset().add(v@.to_multiset()) =~= pre_r.to_multiset().add(
                pre_s.to_multiset(),
            ));
        }
    }
    proof {
        assert(v@.to_multiset() =~= Multiset::<String>::empty());
        assert(result@.to_multiset() =~= orig.to_multiset());
    }
    *v = result;
}

/// Plans a word-to-definition question: picks a meaning and a
/// definition (which becomes the correct answer), lists the antonyms to
/// try for definition distractors (definition-level preferred, in a
/// shuffled order), and excludes the word, the definition text, and
/// every synonym and antonym.  Fails with `Unsupported` only when the
/// entry has no meanings or the picked meaning has no definition.
pub fn plan_word_definition(word: &Word, picker: &mut Picker) -> (r: Result<
    WordDefinitionPlan,
    QuestionGenerationError,
>)
    ensures
        r matches Err(e) ==> e is Unsupported,
        r matches Ok(p) ==> word_definition_plan_ok(p, *word),
        word.meanings@.len() > 0 && every_meaning_defined(*word) ==> r is Ok,
{
    broadcast use vstd::seq_lib::group_to_multiset_ensures;

    let ghost fm_a = |m: WordMeaning| meaning_antonyms(m);
    let ghost fm_t = |m: WordMeaning| meaning_definition_texts(m);
    let ghost fd_a = |d: WordDefinition| d.antonyms.deep_view();
    if word.meanings.len() == 0 {
        return Err(QuestionGenerationError::Unsupported);
    }
    let mi = picker.pick(word.meanings.len());
    let m = &word.meanings[mi];
    if m.definitions.len() == 0 {
        return Err(QuestionGenerationError::Unsupported);
    }
    let di = picker.pick(m.definitions.len());
    let d = &m.definitions[di];
    let definition = d.definition.clone();
    proof {
        assert(meaning_definition_texts(*m)[di as int] == definition@);
        lemma_flat_map_member(word.meanings@, fm_t, mi as int, definition@);
    }
    let def_level = d.antonyms.len() > 0;
    let mut candidates = if def_level {
        crate::dictionary::clone_strings(&d.antonyms)
    } else {
        crate::dictionary::clone_strings(&m.antonyms)
    };
    let ghost pool0 = candidates@;
    shuffle_strings(&mut candidates, picker);
    proof {
        assert forall|t: int| 0 <= t < candidates@.len() implies all_antonyms_spec(
            *word,
        ).contains((#[trigger] candidates@[t])@) && (if d.antonyms@.len() > 0 {
            d.antonyms.deep_view()
        } else {
            m.antonyms.deep_view()
        }).contains((candidates@[t])@) by {
            assert(candidates@.contains(candidates@[t]));
            vstd::seq_lib::to_multiset_contains(candidates@, candidates@[t]);
            vstd::seq_lib::to_multiset_contains(pool0, candidates@[t]);
            assert(pool0.contains(candidates@[t]));
            let kk = choose|kk: int| 0 <= kk < pool0.len() && pool0[kk] == candidates@[t];
            let x = candidates@[t]@;
            if def_level {
                assert(d.antonyms.deep_view()[kk] == x);
                assert(d.antonyms.deep_view().contains(x));
                lemma_flat_map_member(m.definitions@, fd_a, di as int, x);
                lemma_def_level_member(m.antonyms, m.definitions@.flat_map(fd_a), x);
            } else {
                assert(m.antonyms.deep_view()[kk] == x);
                assert(m.antonyms.deep_view().contains(x));
                lemma_meaning_level_member(m.antonyms, m.definitions@.flat_map(fd_a), kk);
            }
            lemma_flat_map_member(word.meanings@, fm_a, mi as int, x);
        }
    }
    let mut exclusion: Vec<String> = Vec::new();
    exclusion.push(word.word.clone());
    exclusion.push(definition.clone());
    let syns = word.all_synonyms();
    let ants = word.all_antonyms();
    extend_strings(&mut exclusion, &syns);
    extend_strings(&mut exclusion, &ants);
    proof {
        assert(exclusion.deep_view() =~= seq![word.word@, definition@] + all_synonyms_spec(*word)
            + all_antonyms_spec(*word));
        assert(exclusion@[0]@ == word.word@);
        assert(exclusion@[1]@ == definition@);
        let dd = word.meanings@[mi as int].definitions@[di as int];
        assert(dd.definition@ == definition@);
    }
    Ok(
        WordDefinitionPlan {
            part_of_speech: m.part_of_speech,
            definition,
            antonym_candidates: candidates,
            tested_word: word.word.clone(),
            exclusion,
        },
    )
}

/// The prompt a word-to-definition question shows.
pub open spec fn word_definition_prompt_spec(w: Seq<char>) -> Seq<char> {
    "The definition of '"@ + w + "' is:"@
}

/// Assembles the planned word-to-definition question: the chosen
/// definition text is the correct answer.
pub fn assemble_word_definition(plan: WordDefinitionPlan, word_uid: i64) -> (d: QuestionDraft)
    requires
        word_definition_plan_wf(plan),
    ensures
        draft_wf(d),
        d.word_uid == word_uid,
        d.tested_word == plan.tested_word,
        d.exclusion@ == plan.exclusion@,
        d.prompt@ == word_definition_prompt_spec(plan.tested_word@),
        d.answers@ =~= seq![Answer { content: plan.definition, correct: true, word_uid: None }],
{
    let mut prompt = String::from_str("The definition of '");
    prompt.append(plan.tested_word.as_str());
    prompt.append("' is:");
    let mut answers: Vec<Answer> = Vec::new();
    answers.push(Answer { content: plan.definition, correct: true, word_uid: None });
    let d = QuestionDraft {
        word_uid,
        tested_word: plan.tested_word,
        prompt,
        answers,
        exclusion: plan.exclusion,
    };
    proof {
        assert(exactly_one_correct(d.answers@)) by {
            assert((d.answers@[0]).correct);
        }
    }
    d
}

impl QuestionDraft {
    /// Tries to add a definition of the looked-up entry as a distractor:
    /// the first meaning with the required part of speech supplies one of
    /// its definitions at random, unless its text is already excluded or
    /// no slot is free.  Returns whether an answer was added; with a free
    /// slot, a meaning of the required part of speech, and none of that
    /// meaning's definition texts excluded, one is always added.
    pub fn try_definition_distractor(
        &mut self,
        entry: &Word,
        pos: &PartOfSpeech,
        picker: &mut Picker,
    ) -> (added: bool)
        requires
            draft_wf(*old(self)),
        ensures
            draft_wf(*final(self)),
            draft_frame(*old(self), *final(self)),
            !added ==> final(self).answers@ == old(self).answers@ && final(self).exclusion@ == old(
                self,
            ).exclusion@,
            (forall|i: int|
                0 <= i < entry.meanings@.len() ==> (#[trigger] entry.meanings@[i]).part_of_speech
                    != *pos) ==> !added,
            old(self).answers@.len() >= ANSWER_COUNT ==> !added,
            ({
                let fi = first_meaning_with_pos(entry.meanings@, *pos);
                old(self).answers@.len() < ANSWER_COUNT && fi >= 0
                    && entry.meanings@[fi].definitions@.len() > 0 && (forall|j: int|
                    0 <= j < entry.meanings@[fi].definitions@.len() ==> !contains_text(
                        old(self).exclusion@,
                        (#[trigger] entry.meanings@[fi].definitions@[j]).definition@,
                    ))
            }) ==> added,
            added ==> ({
                let fi = first_meaning_with_pos(entry.meanings@, *pos);
                let last = final(self).answers@.last();
                &&& 0 <= fi < entry.meanings@.len()
                &&& entry.meanings@[fi].part_of_speech == *pos
                &&& meaning_definition_texts(entry.meanings@[fi]).contains(last.content@)
                &&& final(self).answers@ =~= old(self).answers@.push(last)
                &&& !last.correct
                &&& last.word_uid is None
                &&& all_definition_texts(*entry).contains(last.content@)
                &&& !contains_text(old(self).exclusion@, last.content@)
                &&& final(self).exclusion@ =~= old(self).exclusion@.push(
                    final(self).exclusion@.last(),
                )
            }),
    {
        let ghost fm_t = |m: WordMeaning| meaning_definition_texts(m);
        let n = entry.meanings.len();
        let mut i: usize = 0;
        let mut found: bool = false;
        while i < n && !found
            invariant
                i <= n == entry.meanings@.len(),
                found ==> i < n && entry.meanings@[i as int].part_of_speech == *pos,
                forall|t: int|
                    0 <= t < i ==> (#[trigger] entry.meanings@[t]).part_of_speech != *pos,
            decreases n - i + (if found {
                0int
            } else {
                1int
            }),
        {
            if entry.meanings[i].part_of_speech == *pos {
                found = true;
            } else {
                i = i + 1;
            }
        }
        if !found {
            proof {
                lemma_no_meaning_with_pos(entry.meanings@, *pos);
            }
            return false;
        }
        proof {
            lemma_first_meaning_with_pos(entry.meanings@, *pos, i as int);
        }
        let m = &entry.meanings[i];
        if m.definitions.len() == 0 {
            return false;
        }
        let di = picker.pick(m.definitions.len());
        let content = m.definitions[di].definition.clone();
        proof {
            assert(meaning_definition_texts(*m)[di as int] == content@);
            lemma_flat_map_member(entry.meanings@, fm_t, i as int, content@);
        }
        self.add_incorrect(content, None)
    }
}

/// A plan for one of the two primary strategies.
#[derive(Debug)]
pub enum QuestionPlan {
    /// Ask for a synonym or antonym of the word.
    Synonym(SynonymPlan),
    /// Show a definition, ask for the word.
    Definition(DefinitionPlan),
}

/// Plans a question the way a practice round does: a random choice
/// between the synonym/antonym strategy and the definition-to-word
/// strategy, falling back to the latter when the former finds no
/// support in the entry.
pub fn plan_primary_question(word: &Word, picker: &mut Picker) -> (r: Result<
    QuestionPlan,
    QuestionGenerationError,
>)
    ensures
        r matches Err(e) ==> e is Unsupported,
        r matches Ok(QuestionPlan::Synonym(p)) ==> synonym_plan_ok(p, *word),
        r matches Ok(QuestionPlan::Definition(p)) ==> definition_plan_ok(p, *word),
        word.meanings@.len() > 0 && every_meaning_defined(*word) ==> r is Ok,
{
    let kind = picker.pick(2);
    if kind == 0 {
        let is_synonym = picker.pick(2) == 0;
        match plan_word_synonym(word, is_synonym, picker) {
            Ok(p) => {
                return Ok(QuestionPlan::Synonym(p));
            },
            Err(_) => {},
        }
    }
    match plan_definition_word(word, picker) {
        Ok(p) => Ok(QuestionPlan::Definition(p)),
        Err(e) => Err(e),
    }
}

/// How many random words the external phase asks the lexicon for:
/// twice the open slots, three times when it must find definitions.
pub fn external_request_count(remaining: usize, definitions: bool) -> (r: usize)
    requires
        remaining <= ANSWER_COUNT,
    ensures
        definitions ==> r == 3 * remaining,
        !definitions ==> r == 2 * remaining,
{
    if definitions {
        3 * remaining
    } else {
        2 * remaining
    }
}

} // verus!
