//! The answer resolver: maps raw learner input to one of the presented
//! answers, to a skip, or to a retry request.
//!
//! A positive integer selects an answer by its 1-based position.  A skip
//! token (":s" or ":skip", any ASCII case) skips the question.  Any
//! other text is compared, case-folded, against every answer's
//! case-folded display text by Jaro similarity; the best answer is
//! accepted when it matches exactly, or when its similarity exceeds 9/10
//! and leads the runner-up by more than 1/4.

use vstd::prelude::*;

use crate::questions::{answer_contents, Answer};
use crate::similarity::{
    jaro, jaro_frac, lemma_jaro_bounds, lemma_jaro_one_means_equal, lemma_jaro_self,
};
use crate::text::{
    all_digits, chars_of, ci_eq, ci_seq_eq, ci_vec_eq, digits_value, fold_lower, is_digit,
    lower_of, parse_digits, trim_chars, trim_spec, ParsedNumber,
};

verus! {

/// Longest case-folded text the similarity arithmetic accepts.
pub const FOLDED_LEN_LIMIT: usize = 0x100000;

/// What became of one round of learner input.
#[derive(Debug, Clone, Copy, PartialEq, Eq, Structural)]
pub enum Resolution {
    /// The input selected the answer at this position.
    Resolved(usize),
    /// The learner skipped the question.
    Skip,
    /// The input could not be understood; ask again.
    Retry,
}

/// The skip tokens, compared ignoring ASCII case.
pub open spec fn is_skip_token(s: Seq<char>) -> bool {
    ci_seq_eq(s, seq![':', 's']) || ci_seq_eq(s, seq![':', 's', 'k', 'i', 'p'])
}

/// Strict order on similarity fractions (positive denominators).
pub open spec fn frac_lt(x: (int, int), y: (int, int)) -> bool {
    x.0 * y.1 < y.0 * x.1
}

/// Index of the best similarity among the first `n`, earliest wins ties.
pub open spec fn best_idx(sims: Seq<(int, int)>, n: int) -> int
    decreases n,
{
    if n <= 1 {
        0
    } else {
        let b = best_idx(sims, n - 1);
        if frac_lt(sims[b], sims[n - 1]) {
            n - 1
        } else {
            b
        }
    }
}

/// Largest similarity among the first `n`, not looking at `skip`;
/// zero when nothing else is there.
pub open spec fn best_excluding(sims: Seq<(int, int)>, skip: int, n: int) -> (int, int)
    decreases n,
{
    if n <= 0 {
        (0, 1)
    } else {
        let p = best_excluding(sims, skip, n - 1);
        if n - 1 == skip {
            p
        } else if frac_lt(p, sims[n - 1]) {
            sims[n - 1]
        } else {
            p
        }
    }
}

/// Whether the best similarity wins outright: an exact match, or above
/// 9/10 with a lead of more than 1/4 over the runner-up.
pub open spec fn fuzzy_accepts(top: (int, int), sec: (int, int)) -> bool {
    top.0 == top.1 || (10 * top.0 > 9 * top.1 && 4 * (top.0 * sec.1) > 4 * (sec.0 * top.1) + top.1
        * sec.1)
}

/// The similarity of the folded input against every folded answer text.
pub open spec fn folded_sims(fin: Seq<char>, contents: Seq<Seq<char>>) -> Seq<(int, int)> {
    Seq::new(contents.len(), |i: int| jaro_frac(fin, lower_of(contents[i])))
}

/// Some folded text is too long for the similarity arithmetic.
pub open spec fn folding_too_long(fin: Seq<char>, contents: Seq<Seq<char>>) -> bool {
    fin.len() >= FOLDED_LEN_LIMIT || exists|i: int|
        0 <= i < contents.len() && lower_of(contents[i]).len() >= FOLDED_LEN_LIMIT
}

/// What resolving `raw` against the displayed texts yields.
pub open spec fn resolve_spec(raw: Seq<char>, contents: Seq<Seq<char>>) -> Resolution {
    let t = trim_spec(raw);
    if is_skip_token(t) {
        Resolution::Skip
    } else if all_digits(t) {
        let v = digits_value(t);
        if 1 <= v <= contents.len() {
            Resolution::Resolved((v - 1) as usize)
        } else {
            Resolution::Retry
        }
    } else if contents.len() == 0 {
        Resolution::Retry
    } else {
        let fin = trim_spec(lower_of(raw));
        if folding_too_long(fin, contents) {
            Resolution::Retry
        } else {
            let sims = folded_sims(fin, contents);
            let b = best_idx(sims, contents.len() as int);
            if fuzzy_accepts(sims[b], best_excluding(sims, b, contents.len() as int)) {
                Resolution::Resolved(b as usize)
            } else {
                Resolution::Retry
            }
        }
    }
}

fn frac_lt_exec(x: (u64, u64), y: (u64, u64)) -> (r: bool)
    ensures
        r == frac_lt((x.0 as int, x.1 as int), (y.0 as int, y.1 as int)),
{
    proof {
        assert((x.0 as u128) * (y.1 as u128) <= u128::MAX && (y.0 as u128) * (x.1 as u128)
            <= u128::MAX) by (nonlinear_arith)
            requires
                x.0 <= u64::MAX && x.1 <= u64::MAX && y.0 <= u64::MAX && y.1 <= u64::MAX,
        ;
    }
    (x.0 as u128) * (y.1 as u128) < (y.0 as u128) * (x.1 as u128)
}

fn fuzzy_accepts_exec(top: (u64, u64), sec: (u64, u64)) -> (r: bool)
    requires
        top.0 <= top.1 < 0x4000000000000000,
        sec.0 <= sec.1 < 0x4000000000000000,
    ensures
        r == fuzzy_accepts((top.0 as int, top.1 as int), (sec.0 as int, sec.1 as int)),
{
    if top.0 == top.1 {
        return true;
    }
    proof {
        assert(4 * ((top.0 as u128) * (sec.1 as u128)) < u128::MAX && 4 * ((sec.0 as u128) * (
        top.1 as u128)) + (top.1 as u128) * (sec.1 as u128) < u128::MAX) by (nonlinear_arith)
            requires
                top.0 < 0x4000000000000000 && top.1 < 0x4000000000000000 && sec.0
                    < 0x4000000000000000 && sec.1 < 0x4000000000000000,
        ;
    }
    let lead: bool = 10 * (top.0 as u128) > 9 * (top.1 as u128);
    let gap: bool = 4 * ((top.0 as u128) * (sec.1 as u128)) > 4 * ((sec.0 as u128) * (top.1
        as u128)) + (top.1 as u128) * (sec.1 as u128);
    lead && gap
}

/// Resolves raw learner input against the presented answers.
pub fn resolve(raw: &str, answers: &Vec<Answer>) -> (r: Resolution)
    ensures
        r == resolve_spec(raw@, answer_contents(answers@)),
        r matches Resolution::Resolved(i) ==> i < answers@.len(),
{
    let ghost contents = answer_contents(answers@);
    let rchars = chars_of(raw);
    let t = trim_chars(&rchars);
    let tok_short = chars_of(":s");
    let tok_long = chars_of(":skip");
    proof {
        reveal_strlit(":s");
        reveal_strlit(":skip");
        assert(tok_short@ =~= seq![':', 's']);
        assert(tok_long@ =~= seq![':', 's', 'k', 'i', 'p']);
    }
    if ci_vec_eq(&t, &tok_short) || ci_vec_eq(&t, &tok_long) {
        return Resolution::Skip;
    }
    let n = answers.len();
    match parse_digits(&t) {
        ParsedNumber::TooBig => {
            proof {
                assert(digits_value(t@) > u64::MAX >= usize::MAX >= contents.len());
            }
            return Resolution::Retry;
        },
        ParsedNumber::Value(v) => {
            if 1 <= v && v <= n as u64 {
                return Resolution::Resolved((v - 1) as usize);
            } else {
                return Resolution::Retry;
            }
        },
        ParsedNumber::NotDigits => {},
    }
    if n == 0 {
        return Resolution::Retry;
    }
    let folded_raw = fold_lower(raw);
    let fin = trim_chars(&chars_of(folded_raw.as_str()));
    if fin.len() >= FOLDED_LEN_LIMIT {
        return Resolution::Retry;
    }
    let ghost gfin = trim_spec(lower_of(raw@));
    let ghost gsims = folded_sims(gfin, contents);
    let mut sims: Vec<(u64, u64)> = Vec::new();
    let mut k: usize = 0;
    while k < n
        invariant
            k <= n,
            0 < n == answers@.len(),
            !is_skip_token(trim_spec(raw@)),
            !all_digits(trim_spec(raw@)),
            contents == answer_contents(answers@),
            fin@ == gfin,
            fin@.len() < FOLDED_LEN_LIMIT,
            gsims == folded_sims(gfin, contents),
            sims@.len() == k,
            forall|q: int| 0 <= q < k ==> lower_of(contents[q]).len() < FOLDED_LEN_LIMIT,
            forall|q: int|
                0 <= q < k ==> (#[trigger] sims@[q]).0 == gsims[q].0 && sims@[q].1 == gsims[q].1
                    && sims@[q].0 <= sims@[q].1 && 1 <= sims@[q].1 < 0x4000000000000000,
        decreases n - k,
    {
        let fc = fold_lower(answers[k].content.as_str());
        let cv = chars_of(fc.as_str());
        if cv.len() >= FOLDED_LEN_LIMIT {
            proof {
                assert(cv@ == lower_of(contents[k as int]));
                assert(0 <= k < contents.len());
                assert(folding_too_long(gfin, contents));
                assert(!is_skip_token(trim_spec(raw@)));
                assert(!all_digits(trim_spec(raw@)));
                assert(resolve_spec(raw@, contents) is Retry);
            }
            return Resolution::Retry;
        }
        let s = jaro(&fin, &cv);
        sims.push(s);
        k = k + 1;
    }
    proof {
        assert(!folding_too_long(gfin, contents));
    }
    // best similarity, earliest wins ties
    let mut b: usize = 0;
    let mut i: usize = 1;
    while i < n
        invariant
            1 <= i <= n,
            n == sims@.len(),
            b < i,
            b == best_idx(lift_sims(sims@), i as int),
            forall|q: int|
                0 <= q < n ==> (#[trigger] sims@[q]).0 <= sims@[q].1 && 1 <= sims@[q].1
                    < 0x4000000000000000,
        decreases n - i,
    {
        if frac_lt_exec(sims[b], sims[i]) {
            b = i;
        }
        i = i + 1;
    }
    // runner-up
    let mut sec: (u64, u64) = (0, 1);
    let mut i2: usize = 0;
    while i2 < n
        invariant
            i2 <= n,
            n == sims@.len(),
            b < n,
            sec.0 <= sec.1 < 0x4000000000000000,
            ({
                let s = best_excluding(lift_sims(sims@), b as int, i2 as int);
                sec.0 == s.0 && sec.1 == s.1
            }),
            forall|q: int|
                0 <= q < n ==> (#[trigger] sims@[q]).0 <= sims@[q].1 && 1 <= sims@[q].1
                    < 0x4000000000000000,
        decreases n - i2,
    {
        if i2 != b {
            if frac_lt_exec(sec, sims[i2]) {
                sec = sims[i2];
            }
        }
        i2 = i2 + 1;
    }
    proof {
        lemma_lift_sims(sims@, gsims);
    }
    if fuzzy_accepts_exec(sims[b], sec) {
        Resolution::Resolved(b)
    } else {
        Resolution::Retry
    }
}

/// The integer view of computed similarity pairs.
pub open spec fn lift_sims(s: Seq<(u64, u64)>) -> Seq<(int, int)> {
    s.map_values(|p: (u64, u64)| (p.0 as int, p.1 as int))
}

proof fn lemma_lift_sims(s: Seq<(u64, u64)>, g: Seq<(int, int)>)
    requires
        s.len() == g.len(),
        forall|q: int| 0 <= q < s.len() ==> (#[trigger] s[q]).0 == g[q].0 && s[q].1 == g[q].1,
    ensures
        lift_sims(s) =~= g,
{
}

/// From `x` at most `y` and `y` below `z`, `x` is below `z` (fractions
/// with positive denominators).
proof fn lemma_frac_le_lt_trans(x: (int, int), y: (int, int), z: (int, int))
    requires
        x.1 > 0,
        y.1 > 0,
        z.1 > 0,
        !frac_lt(y, x),
        frac_lt(y, z),
    ensures
        frac_lt(x, z),
{
    let (x0, x1) = x;
    let (y0, y1) = y;
    let (z0, z1) = z;
    assert(x0 * z1 < z0 * x1) by (nonlinear_arith)
        requires
            x1 > 0 && y1 > 0 && z1 > 0,
            x0 * y1 <= y0 * x1,
            y0 * z1 < z0 * y1,
    ;
}

/// The best index is in range and no similarity beats it.
proof fn lemma_best_idx_max(sims: Seq<(int, int)>, n: int)
    requires
        1 <= n <= sims.len(),
        forall|q: int| 0 <= q < n ==> (#[trigger] sims[q]).1 > 0,
    ensures
        0 <= best_idx(sims, n) < n,
        forall|q: int| 0 <= q < n ==> !frac_lt(sims[best_idx(sims, n)], #[trigger] sims[q]),
    decreases n,
{
    if n > 1 {
        lemma_best_idx_max(sims, n - 1);
        let b = best_idx(sims, n - 1);
        if frac_lt(sims[b], sims[n - 1]) {
            assert forall|q: int| 0 <= q < n implies !frac_lt(sims[n - 1], #[trigger] sims[q]) by {
                if q < n - 1 {
                    if frac_lt(sims[n - 1], sims[q]) {
                        lemma_frac_le_lt_trans(sims[q], sims[b], sims[n - 1]);
                    }
                }
            }
        }
    }
}

/// Exact text match always resolves: when the case-folded, trimmed input
/// equals some answer's case-folded display text, the resolver accepts
/// an answer, whatever the similarity thresholds would say about the
/// rest.  (Numeric and skip inputs take their own paths first.)
pub proof fn lemma_exact_match_resolves(raw: Seq<char>, contents: Seq<Seq<char>>)
    requires
        !is_skip_token(trim_spec(raw)),
        !all_digits(trim_spec(raw)),
        contents.len() <= usize::MAX,
        !folding_too_long(trim_spec(lower_of(raw)), contents),
        exists|i: int|
            0 <= i < contents.len() && lower_of(#[trigger] contents[i]) == trim_spec(
                lower_of(raw),
            ),
    ensures
        resolve_spec(raw, contents) matches Resolution::Resolved(i) && 0 <= i < contents.len()
            && lower_of(contents[i as int]) == trim_spec(lower_of(raw)),
{
    let fin = trim_spec(lower_of(raw));
    let n = contents.len() as int;
    let sims = folded_sims(fin, contents);
    let w = choose|i: int| 0 <= i < n && lower_of(#[trigger] contents[i]) == fin;
    lemma_jaro_self(fin);
    assert(sims[w].0 == sims[w].1);
    assert forall|q: int| 0 <= q < n implies (#[trigger] sims[q]).1 > 0 && sims[q].0
        <= sims[q].1 by {
        lemma_jaro_bounds(fin, lower_of(contents[q]));
    }
    lemma_best_idx_max(sims, n);
    let b = best_idx(sims, n);
    let b0 = sims[b].0;
    let b1 = sims[b].1;
    let w0 = sims[w].0;
    let w1 = sims[w].1;
    assert(!frac_lt(sims[b], sims[w]));
    assert(b0 == b1) by (nonlinear_arith)
        requires
            b0 * w1 >= w0 * b1,
            w0 == w1,
            w1 > 0,
            b1 > 0,
            b0 <= b1,
    ;
    assert(fuzzy_accepts(sims[b], best_excluding(sims, b, n)));
    lemma_jaro_one_means_equal(fin, lower_of(contents[b]));
}

/// A numeric input of zero, or one past the number of presented answers,
/// never resolves: the resolver asks again.
pub proof fn lemma_invalid_index_retries(raw: Seq<char>, contents: Seq<Seq<char>>)
    requires
        all_digits(trim_spec(raw)),
        digits_value(trim_spec(raw)) < 1 || digits_value(trim_spec(raw)) > contents.len(),
    ensures
        resolve_spec(raw, contents) is Retry,
{
    let t = trim_spec(raw);
    assert(is_digit(t[0]));
    assert(48 <= t[0] as u32 <= 57);
    assert(':' as u32 == 58);
    assert(!ci_eq(t[0], ':'));
    assert(!is_skip_token(t));
}

} // verus!
