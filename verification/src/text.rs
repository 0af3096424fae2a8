//! Character-level text helpers shared by the answer resolver and the
//! command parsing: exploding strings into characters, trimming,
//! ASCII-case-insensitive comparison, digit parsing, and Unicode case
//! folding (the one operation delegated to the standard library).

use vstd::prelude::*;
use vstd::string::StrSliceExecFns;

verus! {

/// What `str::to_lowercase` returns: the case-folded form of a character
/// sequence.  The result depends on the characters alone.
pub uninterp spec fn lower_of(s: Seq<char>) -> Seq<char>;

/// Relies on str::to_lowercase: Unicode lowercase mapping of every
/// character, depending on the input characters alone.
#[verifier::external_body]
pub fn fold_lower(s: &str) -> (r: String)
    ensures
        r@ == lower_of(s@),
{
    s.to_lowercase()
}

/// The characters of a string, in order.
pub fn chars_of(s: &str) -> (r: Vec<char>)
    ensures
        r@ == s@,
{
    let n = s.unicode_len();
    let mut r: Vec<char> = Vec::new();
    let mut i: usize = 0;
    while i < n
        invariant
            n == s@.len(),
            i <= n,
            r@ == s@.subrange(0, i as int),
        decreases n - i,
    {
        r.push(s.get_char(i));
        i = i + 1;
        proof {
            assert(r@ =~= s@.subrange(0, i as int));
        }
    }
    proof {
        assert(r@ =~= s@);
    }
    r
}

/// ASCII whitespace, the kind a command line hands in.
pub open spec fn is_ws(c: char) -> bool {
    c == ' ' || c == '\t' || c == '\n' || c == '\r'
}

/// `s` without leading whitespace.
pub open spec fn trim_front_spec(s: Seq<char>) -> Seq<char>
    decreases s.len(),
{
    if s.len() > 0 && is_ws(s[0]) {
        trim_front_spec(s.drop_first())
    } else {
        s
    }
}

/// `s` without trailing whitespace.
pub open spec fn trim_back_spec(s: Seq<char>) -> Seq<char>
    decreases s.len(),
{
    if s.len() > 0 && is_ws(s.last()) {
        trim_back_spec(s.drop_last())
    } else {
        s
    }
}

/// `s` without leading and trailing whitespace.
pub open spec fn trim_spec(s: Seq<char>) -> Seq<char> {
    trim_back_spec(trim_front_spec(s))
}

proof fn lemma_trim_front_subrange(s: Seq<char>, i: int)
    requires
        0 <= i <= s.len(),
        forall|k: int| 0 <= k < i ==> is_ws(s[k]),
        i < s.len() ==> !is_ws(s[i]),
    ensures
        trim_front_spec(s) == s.subrange(i, s.len() as int),
    decreases i,
{
    if i == 0 {
        assert(trim_front_spec(s) =~= s.subrange(0, s.len() as int));
    } else {
        let t = s.drop_first();
        assert(trim_front_spec(s) == trim_front_spec(t));
        assert(forall|k: int| 0 <= k < i - 1 ==> is_ws(#[trigger] t[k]));
        lemma_trim_front_subrange(t, i - 1);
        assert(t.subrange(i - 1, t.len() as int) =~= s.subrange(i, s.len() as int));
    }
}

proof fn lemma_trim_back_subrange(s: Seq<char>, j: int)
    requires
        0 <= j <= s.len(),
        forall|k: int| j <= k < s.len() ==> is_ws(s[k]),
        j > 0 ==> !is_ws(s[j - 1]),
    ensures
        trim_back_spec(s) == s.subrange(0, j),
    decreases s.len() - j,
{
    if j == s.len() {
        assert(trim_back_spec(s) =~= s.subrange(0, j));
    } else {
        let t = s.drop_last();
        assert(trim_back_spec(s) == trim_back_spec(t));
        lemma_trim_back_subrange(t, j);
        assert(t.subrange(0, j) =~= s.subrange(0, j));
    }
}

/// Removes leading and trailing ASCII whitespace.
pub fn trim_chars(s: &Vec<char>) -> (r: Vec<char>)
    ensures
        r@ == trim_spec(s@),
{
    let n = s.len();
    let mut b: usize = 0;
    while b < n && (s[b] == ' ' || s[b] == '\t' || s[b] == '\n' || s[b] == '\r')
        invariant
            n == s@.len(),
            b <= n,
            forall|k: int| 0 <= k < b ==> is_ws(s@[k]),
        decreases n - b,
    {
        b = b + 1;
    }
    let mut e: usize = n;
    while e > b && (s[e - 1] == ' ' || s[e - 1] == '\t' || s[e - 1] == '\n' || s[e - 1] == '\r')
        invariant
            n == s@.len(),
            b <= e <= n,
            forall|k: int| 0 <= k < b ==> is_ws(s@[k]),
            forall|k: int| e <= k < n ==> is_ws(s@[k]),
        decreases e,
    {
        e = e - 1;
    }
    let mut r: Vec<char> = Vec::new();
    let mut i: usize = b;
    while i < e
        invariant
            b <= i <= e <= n,
            n == s@.len(),
            r@ == s@.subrange(b as int, i as int),
        decreases e - i,
    {
        r.push(s[i]);
        i = i + 1;
        proof {
            assert(r@ =~= s@.subrange(b as int, i as int));
        }
    }
    proof {
        let front = trim_front_spec(s@);
        lemma_trim_front_subrange(s@, b as int);
        if e == b {
            lemma_trim_back_subrange(front, 0);
        } else {
            assert(!is_ws(s@[e - 1]));
            assert(front[e - b - 1] == s@[e - 1]);
            lemma_trim_back_subrange(front, e - b as int);
        }
        assert(r@ =~= trim_spec(s@));
    }
    r
}

/// Case-insensitive equality of two characters, folding ASCII letters
/// only.
pub open spec fn ci_eq(a: char, b: char) -> bool {
    ascii_lower(a) == ascii_lower(b)
}

/// The code point of `c`, with ASCII upper-case letters folded down.
pub open spec fn ascii_lower(c: char) -> int {
    if 65 <= c as u32 && c as u32 <= 90 {
        c as u32 + 32
    } else {
        c as u32 as int
    }
}

fn ascii_lower_exec(c: char) -> (r: u32)
    ensures
        r == ascii_lower(c),
{
    let v = c as u32;
    if 65 <= v && v <= 90 {
        v + 32
    } else {
        v
    }
}

/// Case-insensitive equality of two character sequences (ASCII folding).
pub open spec fn ci_seq_eq(a: Seq<char>, b: Seq<char>) -> bool {
    a.len() == b.len() && forall|k: int| 0 <= k < a.len() ==> ci_eq(a[k], b[k])
}

/// Compares two character vectors ignoring ASCII case.
pub fn ci_vec_eq(a: &Vec<char>, b: &Vec<char>) -> (r: bool)
    ensures
        r == ci_seq_eq(a@, b@),
{
    if a.len() != b.len() {
        return false;
    }
    let n = a.len();
    let mut i: usize = 0;
    while i < n
        invariant
            n == a@.len() == b@.len(),
            i <= n,
            forall|k: int| 0 <= k < i ==> ci_eq(a@[k], b@[k]),
        decreases n - i,
    {
        if ascii_lower_exec(a[i]) != ascii_lower_exec(b[i]) {
            return false;
        }
        i = i + 1;
    }
    true
}

/// A decimal digit.
pub open spec fn is_digit(c: char) -> bool {
    48 <= c as u32 && c as u32 <= 57
}

/// Whether the sequence is one or more decimal digits.
pub open spec fn all_digits(s: Seq<char>) -> bool {
    s.len() > 0 && forall|k: int| 0 <= k < s.len() ==> is_digit(s[k])
}

/// The number the digit sequence denotes.
pub open spec fn digits_value(s: Seq<char>) -> int
    decreases s.len(),
{
    if s.len() == 0 {
        0
    } else {
        digits_value(s.drop_last()) * 10 + (s.last() as u32 - 48)
    }
}

/// Outcome of reading a character vector as a decimal number.
#[derive(Debug, Clone, Copy, PartialEq, Eq, Structural)]
pub enum ParsedNumber {
    /// The text is not one or more decimal digits.
    NotDigits,
    /// All digits, but the value exceeds `u64::MAX`.
    TooBig,
    /// All digits, with this value.
    Value(u64),
}

/// Reads the vector as a decimal number.
pub fn parse_digits(s: &Vec<char>) -> (r: ParsedNumber)
    ensures
        r is NotDigits <==> !all_digits(s@),
        r is TooBig <==> all_digits(s@) && digits_value(s@) > u64::MAX,
        r matches ParsedNumber::Value(v) ==> digits_value(s@) == v,
{
    let n = s.len();
    if n == 0 {
        return ParsedNumber::NotDigits;
    }
    let mut i: usize = 0;
    let mut acc: u64 = 0;
    let mut saturated: bool = false;
    while i < n
        invariant
            n == s@.len(),
            i <= n,
            forall|k: int| 0 <= k < i ==> is_digit(s@[k]),
            !saturated ==> acc == digits_value(s@.subrange(0, i as int)),
            saturated ==> digits_value(s@.subrange(0, i as int)) > u64::MAX && acc == u64::MAX,
        decreases n - i,
    {
        let c = s[i];
        let v = c as u32;
        if v < 48 || v > 57 {
            return ParsedNumber::NotDigits;
        }
        let d: u64 = (v - 48) as u64;
        proof {
            assert(s@.subrange(0, i as int + 1).drop_last() =~= s@.subrange(0, i as int));
            lemma_digits_value_nonneg(s@.subrange(0, i as int));
        }
        if saturated {
            proof {
                let pre = digits_value(s@.subrange(0, i as int));
                assert(pre * 10 + d > u64::MAX) by (nonlinear_arith)
                    requires
                        pre > u64::MAX,
                        d >= 0,
                ;
            }
        } else if acc > (u64::MAX - d) / 10 {
            proof {
                let pre = digits_value(s@.subrange(0, i as int));
                assert(pre * 10 + d > u64::MAX) by (nonlinear_arith)
                    requires
                        pre == acc as int,
                        acc > (u64::MAX - d) / 10,
                        d <= 9,
                        acc <= u64::MAX,
                ;
            }
            saturated = true;
            acc = u64::MAX;
        } else {
            acc = acc * 10 + d;
        }
        i = i + 1;
    }
    proof {
        assert(s@.subrange(0, n as int) =~= s@);
    }
    if saturated {
        ParsedNumber::TooBig
    } else {
        ParsedNumber::Value(acc)
    }
}

/// The affirmative and negative words `str_to_bool` accepts, after
/// trimming and ignoring ASCII case.
pub open spec fn str_to_bool_spec(s: Seq<char>) -> Option<bool> {
    let t = trim_spec(s);
    if ci_seq_eq(t, "y"@) || ci_seq_eq(t, "yes"@) || ci_seq_eq(t, "yeah"@) || ci_seq_eq(t, "yea"@)
        || ci_seq_eq(t, "true"@) || ci_seq_eq(t, "on"@) {
        Some(true)
    } else if ci_seq_eq(t, "n"@) || ci_seq_eq(t, "no"@) || ci_seq_eq(t, "nope"@) || ci_seq_eq(
        t,
        "false"@,
    ) || ci_seq_eq(t, "off"@) {
        Some(false)
    } else {
        None
    }
}

/// Reads a yes/no reply, ignoring case and surrounding whitespace.
pub fn str_to_bool(s: String) -> (r: Option<bool>)
    ensures
        r == str_to_bool_spec(s@),
{
    let t = trim_chars(&chars_of(s.as_str()));
    if ci_vec_eq(&t, &chars_of("y")) || ci_vec_eq(&t, &chars_of("yes")) || ci_vec_eq(
        &t,
        &chars_of("yeah"),
    ) || ci_vec_eq(&t, &chars_of("yea")) || ci_vec_eq(&t, &chars_of("true")) || ci_vec_eq(
        &t,
        &chars_of("on"),
    ) {
        Some(true)
    } else if ci_vec_eq(&t, &chars_of("n")) || ci_vec_eq(&t, &chars_of("no")) || ci_vec_eq(
        &t,
        &chars_of("nope"),
    ) || ci_vec_eq(&t, &chars_of("false")) || ci_vec_eq(&t, &chars_of("off")) {
        Some(false)
    } else {
        None
    }
}

proof fn lemma_digits_value_nonneg(s: Seq<char>)
    requires
        forall|k: int| 0 <= k < s.len() ==> is_digit(s[k]),
    ensures
        digits_value(s) >= 0,
    decreases s.len(),
{
    if s.len() > 0 {
        lemma_digits_value_nonneg(s.drop_last());
    }
}

} // verus!
