//! Saved-word records and the practice-batch selection policy.
//!
//! A record mirrors one row of the vocabulary store: the engine reads
//! and writes it as plain values; persistence stays with the caller.
//! The selection policy is deliberately simple and testable: a lower
//! mastery score comes first, ties go to the record practiced longer
//! ago, then to the smaller identifier.

use vstd::prelude::*;

verus! {

/// One saved word: identifier, spelling, when it was last practiced
/// (seconds on some fixed epoch), and its mastery score.
#[derive(Debug)]
pub struct WordEntry {
    pub uid: i64,
    pub word: String,
    pub last_quizzed: i64,
    pub score: i64,
}

/// The batch order: lower score first, then longer-unpracticed, then
/// smaller identifier.  Total: any two entries compare.
pub open spec fn priority_le(a: WordEntry, b: WordEntry) -> bool {
    ||| a.score < b.score
    ||| (a.score == b.score && a.last_quizzed < b.last_quizzed)
    ||| (a.score == b.score && a.last_quizzed == b.last_quizzed && a.uid <= b.uid)
}

fn priority_le_exec(a: &WordEntry, b: &WordEntry) -> (r: bool)
    ensures
        r == priority_le(*a, *b),
{
    if a.score != b.score {
        a.score < b.score
    } else if a.last_quizzed != b.last_quizzed {
        a.last_quizzed < b.last_quizzed
    } else {
        a.uid <= b.uid
    }
}

/// Picks the next practice batch: the `count` highest-priority entries,
/// in priority order.  Every selected entry has priority at least as
/// high as every entry left behind.
pub fn select_batch(entries: Vec<WordEntry>, count: usize) -> (r: Vec<WordEntry>)
    ensures
        r@.len() == (if count <= entries@.len() {
            count as int
        } else {
            entries@.len() as int
        }),
        forall|i: int, j: int| 0 <= i < j < r@.len() ==> priority_le(r@[i], r@[j]),
        forall|x: WordEntry|
            #[trigger] r@.to_multiset().count(x) <= entries@.to_multiset().count(x),
        forall|i: int, x: WordEntry|
            #![trigger r@[i], entries@.to_multiset().sub(r@.to_multiset()).count(x)]
            0 <= i < r@.len() && entries@.to_multiset().sub(r@.to_multiset()).count(x) > 0
                ==> priority_le(r@[i], x),
{
    broadcast use vstd::seq_lib::group_to_multiset_ensures;
    broadcast use vstd::multiset::group_multiset_axioms;

    let ghost all = entries@;
    let mut src = entries;
    let mut out: Vec<WordEntry> = Vec::new();
    while out.len() < count && src.len() > 0
        invariant
            out@.len() <= count,
            out@.len() + src@.len() == all.len(),
            out@.to_multiset().add(src@.to_multiset()) =~= all.to_multiset(),
            forall|i: int, j: int| 0 <= i < j < out@.len() ==> priority_le(out@[i], out@[j]),
            forall|i: int, j: int|
                #![trigger out@[i], src@[j]]
                0 <= i < out@.len() && 0 <= j < src@.len() ==> priority_le(out@[i], src@[j]),
        decreases src@.len(),
    {
        let mut best: usize = 0;
        let mut j: usize = 1;
        while j < src.len()
            invariant
                best < j <= src@.len(),
                src@.len() > 0,
                forall|t: int| 0 <= t < j ==> priority_le(src@[best as int], #[trigger] src@[t]),
            decreases src@.len() - j,
        {
            if !priority_le_exec(&src[best], &src[j]) {
                best = j;
            }
            j = j + 1;
        }
        let ghost pre_out = out@;
        let ghost pre_src = src@;
        let picked = src.remove(best);
        out.push(picked);
        proof {
            broadcast use vstd::multiset::group_multiset_axioms;

            assert(pre_src.contains(pre_src[best as int]));
            vstd::seq_lib::to_multiset_contains(pre_src, pre_src[best as int]);
            vstd::seq_lib::to_multiset_remove(pre_src, best as int);
            vstd::seq_lib::to_multiset_build(pre_out, picked);
            assert(src@.to_multiset() =~= pre_src.to_multiset().remove(pre_src[best as int]));
            assert(out@.to_multiset() =~= pre_out.to_multiset().insert(pre_src[best as int]));
            assert(out@.to_multiset().add(src@.to_multiset()) =~= all.to_multiset());
            assert(forall|i: int, j2: int|
                #![trigger out@[i], src@[j2]]
                0 <= i < out@.len() && 0 <= j2 < src@.len() ==> priority_le(out@[i], src@[j2]));
        }
    }
    proof {
        assert forall|x: WordEntry|
            #[trigger] out@.to_multiset().count(x) <= all.to_multiset().count(x) by {
            assert(all.to_multiset().count(x) == out@.to_multiset().count(x)
                + src@.to_multiset().count(x));
        }
        assert forall|i: int, x: WordEntry|
            0 <= i < out@.len() && all.to_multiset().sub(out@.to_multiset()).count(x) > 0
                implies priority_le(out@[i], x) by {
            assert(src@.to_multiset().count(x) > 0);
            vstd::seq_lib::to_multiset_contains(src@, x);
            assert(src@.contains(x));
            let k = choose|k: int| 0 <= k < src@.len() && src@[k] == x;
            assert(priority_le(out@[i], src@[k]));
        }
    }
    out
}

} // verus!
