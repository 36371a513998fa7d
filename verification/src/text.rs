//! Decimal rendering and parsing of numbers, and substring occurrence
//! counting over character sequences.

use vstd::prelude::*;
use vstd::string::StrSliceExecFns;
use vstd::string::StringExecFns;

verus! {

/// The character for one decimal digit value.
pub open spec fn digit_char(d: int) -> char {
    if d == 0 {
        '0'
    } else if d == 1 {
        '1'
    } else if d == 2 {
        '2'
    } else if d == 3 {
        '3'
    } else if d == 4 {
        '4'
    } else if d == 5 {
        '5'
    } else if d == 6 {
        '6'
    } else if d == 7 {
        '7'
    } else if d == 8 {
        '8'
    } else {
        '9'
    }
}

/// The numeric value of a digit character, or -1 for any other character.
pub open spec fn digit_value(c: char) -> int {
    if c == '0' {
        0
    } else if c == '1' {
        1
    } else if c == '2' {
        2
    } else if c == '3' {
        3
    } else if c == '4' {
        4
    } else if c == '5' {
        5
    } else if c == '6' {
        6
    } else if c == '7' {
        7
    } else if c == '8' {
        8
    } else if c == '9' {
        9
    } else {
        -1
    }
}

/// The decimal rendering of a natural number, most significant digit first,
/// without leading zeros (a single `'0'` for zero).
pub open spec fn decimal_of(n: nat) -> Seq<char>
    decreases n,
{
    if n < 10 {
        seq![digit_char(n as int)]
    } else {
        decimal_of(n / 10) + seq![digit_char((n % 10) as int)]
    }
}

/// Every character of `s` is a decimal digit.
pub open spec fn all_digits(s: Seq<char>) -> bool {
    forall|i: int| 0 <= i < s.len() ==> digit_value(#[trigger] s[i]) >= 0
}

/// The number denoted by a sequence of digit characters.
pub open spec fn decimal_value(s: Seq<char>) -> int
    decreases s.len(),
{
    if s.len() == 0 {
        0
    } else {
        decimal_value(s.drop_last()) * 10 + digit_value(s.last())
    }
}

fn digit_str(d: u64) -> (s: &'static str)
    requires
        d < 10,
    ensures
        s@ =~= seq![digit_char(d as int)],
{
    proof {
        reveal_strlit("0");
        reveal_strlit("1");
        reveal_strlit("2");
        reveal_strlit("3");
        reveal_strlit("4");
        reveal_strlit("5");
        reveal_strlit("6");
        reveal_strlit("7");
        reveal_strlit("8");
        reveal_strlit("9");
    }
    if d == 0 {
        "0"
    } else if d == 1 {
        "1"
    } else if d == 2 {
        "2"
    } else if d == 3 {
        "3"
    } else if d == 4 {
        "4"
    } else if d == 5 {
        "5"
    } else if d == 6 {
        "6"
    } else if d == 7 {
        "7"
    } else if d == 8 {
        "8"
    } else {
        "9"
    }
}

/// Renders a number in decimal, matching `decimal_of`.
pub fn u64_to_string(n: u64) -> (s: String)
    ensures
        s@ == decimal_of(n as nat),
    decreases n,
{
    if n < 10 {
        String::from_str(digit_str(n))
    } else {
        let mut s = u64_to_string(n / 10);
        s.append(digit_str(n % 10));
        proof {
            assert(s@ =~= decimal_of(n as nat));
        }
        s
    }
}

pub proof fn lemma_decimal_value_nonneg(s: Seq<char>)
    requires
        all_digits(s),
    ensures
        decimal_value(s) >= 0,
    decreases s.len(),
{
    if s.len() > 0 {
        assert(digit_value(s[s.len() - 1]) >= 0);
        lemma_decimal_value_nonneg(s.drop_last());
    }
}

proof fn lemma_decimal_value_prefix(s: Seq<char>, i: int)
    requires
        all_digits(s),
        0 <= i <= s.len(),
    ensures
        decimal_value(s) >= decimal_value(s.take(i)),
    decreases s.len() - i,
{
    if i < s.len() {
        lemma_decimal_value_prefix(s, i + 1);
        assert(s.take(i + 1).drop_last() =~= s.take(i));
        assert(s.take(i + 1).last() == s[i]);
        assert(all_digits(s.take(i)));
        lemma_decimal_value_nonneg(s.take(i));
        assert(decimal_value(s.take(i)) * 10 >= decimal_value(s.take(i)));
        assert(digit_value(s[i]) >= 0);
    } else {
        assert(s.take(i) =~= s);
    }
}

/// Parses a decimal number; succeeds exactly on nonempty all-digit strings
/// whose value fits in a `u64`.
pub fn parse_u64(s: &str) -> (r: Option<u64>)
    ensures
        r is Some <==> (s@.len() > 0 && all_digits(s@) && decimal_value(s@) <= u64::MAX),
        r is Some ==> r == Some(decimal_value(s@) as u64),
{
    let len = s.unicode_len();
    if len == 0 {
        return None;
    }
    let mut i: usize = 0;
    let mut acc: u64 = 0;
    while i < len
        invariant
            0 <= i <= len,
            len == s@.len(),
            all_digits(s@.take(i as int)),
            acc == decimal_value(s@.take(i as int)),
        decreases len - i,
    {
        let c = s.get_char(i);
        let d: u64 = match c {
            '0' => 0,
            '1' => 1,
            '2' => 2,
            '3' => 3,
            '4' => 4,
            '5' => 5,
            '6' => 6,
            '7' => 7,
            '8' => 8,
            '9' => 9,
            _ => {
                proof {
                    assert(digit_value(s@[i as int]) < 0);
                }
                return None;
            },
        };
        proof {
            assert(digit_value(s@[i as int]) == d);
        }
        if acc > (u64::MAX - d) / 10 {
            proof {
                assert(s@.take(i + 1).drop_last() =~= s@.take(i as int));
                assert(s@.take(i + 1).last() == s@[i as int]);
                assert(acc * 10 + d > u64::MAX) by (nonlinear_arith)
                    requires
                        acc > (u64::MAX - d) / 10,
                        d <= 9,
                {
                }
                assert(decimal_value(s@.take(i + 1)) > u64::MAX);
                if all_digits(s@) {
                    lemma_decimal_value_prefix(s@, i + 1);
                }
            }
            return None;
        }
        proof {
            assert(acc * 10 + d <= u64::MAX) by (nonlinear_arith)
                requires
                    acc <= (u64::MAX - d) / 10,
                    d <= 9,
            {
            }
            assert(s@.take(i + 1).drop_last() =~= s@.take(i as int));
            assert(s@.take(i + 1).last() == s@[i as int]);
        }
        acc = acc * 10 + d;
        i = i + 1;
    }
    proof {
        assert(s@.take(len as int) =~= s@);
    }
    Some(acc)
}

/// How many `':'` characters the string holds.
pub open spec fn colon_count(s: Seq<char>) -> nat
    decreases s.len(),
{
    if s.len() == 0 {
        0
    } else {
        colon_count(s.drop_last()) + (if s.last() == ':' {
            1nat
        } else {
            0nat
        })
    }
}

/// The index of the first `':'`, or -1 when there is none.
pub open spec fn colon_index(s: Seq<char>) -> int
    decreases s.len(),
{
    if s.len() == 0 {
        -1
    } else if s[0] == ':' {
        0
    } else {
        let rest = colon_index(s.skip(1));
        if rest < 0 {
            -1
        } else {
            rest + 1
        }
    }
}

pub proof fn lemma_colon_index_absent(s: Seq<char>)
    requires
        forall|j: int| 0 <= j < s.len() ==> s[j] != ':',
    ensures
        colon_index(s) == -1,
    decreases s.len(),
{
    if s.len() > 0 {
        lemma_colon_index_absent(s.skip(1));
    }
}

pub proof fn lemma_colon_index_at(s: Seq<char>, i: int)
    requires
        0 <= i < s.len(),
        s[i] == ':',
        forall|j: int| 0 <= j < i ==> s[j] != ':',
    ensures
        colon_index(s) == i,
    decreases i,
{
    if i > 0 {
        lemma_colon_index_at(s.skip(1), i - 1);
    }
}

/// `pat` occurs in `text` starting at index `i`.
pub open spec fn occurs_at(text: Seq<char>, pat: Seq<char>, i: int) -> bool {
    0 <= i && i + pat.len() <= text.len() && text.subrange(i, i + pat.len() as int) == pat
}

/// `pat` occurs somewhere in `text`.
pub open spec fn contains_pat(text: Seq<char>, pat: Seq<char>) -> bool {
    exists|i: int| occurs_at(text, pat, i)
}

/// The number of non-overlapping occurrences of `pat` in `text`, counted
/// left to right; zero for an empty pattern.
pub open spec fn occurrence_count(text: Seq<char>, pat: Seq<char>) -> nat
    decreases text.len(),
{
    if pat.len() == 0 || text.len() < pat.len() {
        0
    } else if occurs_at(text, pat, 0) {
        (1 + occurrence_count(text.skip(pat.len() as int), pat)) as nat
    } else {
        occurrence_count(text.skip(1), pat)
    }
}

fn str_match_at(text: &str, pat: &str, i: usize, tlen: usize, plen: usize) -> (b: bool)
    requires
        tlen == text@.len(),
        plen == pat@.len(),
        i + plen <= tlen,
    ensures
        b == occurs_at(text@, pat@, i as int),
{
    let mut j: usize = 0;
    while j < plen
        invariant
            0 <= j <= plen,
            tlen == text@.len(),
            plen == pat@.len(),
            i + plen <= tlen,
            forall|k: int| 0 <= k < j ==> text@[i + k] == pat@[k],
        decreases plen - j,
    {
        if text.get_char(i + j) != pat.get_char(j) {
            proof {
                assert(text@.subrange(i as int, i + plen as int)[j as int] != pat@[j as int]);
            }
            return false;
        }
        j = j + 1;
    }
    proof {
        assert(text@.subrange(i as int, i + plen as int) =~= pat@);
    }
    true
}

/// Decides whether `pat` occurs anywhere in `text`.
pub fn str_contains(text: &str, pat: &str) -> (b: bool)
    ensures
        b == contains_pat(text@, pat@),
{
    let tlen = text.unicode_len();
    let plen = pat.unicode_len();
    if plen > tlen {
        proof {
            assert(forall|i: int| !occurs_at(text@, pat@, i));
        }
        return false;
    }
    if plen == 0 {
        proof {
            assert(text@.subrange(0, 0) =~= pat@);
            assert(occurs_at(text@, pat@, 0));
        }
        return true;
    }
    let mut i: usize = 0;
    while i <= tlen - plen
        invariant
            0 <= i,
            0 < plen <= tlen,
            tlen == text@.len(),
            plen == pat@.len(),
            i <= tlen - plen + 1,
            forall|j: int| 0 <= j < i ==> !occurs_at(text@, pat@, j),
        decreases tlen - i,
    {
        if str_match_at(text, pat, i, tlen, plen) {
            return true;
        }
        i = i + 1;
    }
    proof {
        assert(forall|j: int| occurs_at(text@, pat@, j) ==> 0 <= j <= tlen - plen);
    }
    false
}

/// Counts the non-overlapping occurrences of `pat` in `text`, left to right.
pub fn count_occurrences(text: &str, pat: &str) -> (n: usize)
    ensures
        n == occurrence_count(text@, pat@),
{
    let tlen = text.unicode_len();
    let plen = pat.unicode_len();
    if plen == 0 {
        return 0;
    }
    let mut i: usize = 0;
    let mut n: usize = 0;
    proof {
        assert(text@.skip(0) =~= text@);
    }
    while i <= tlen && plen <= tlen - i
        invariant
            0 <= i <= tlen,
            0 < plen,
            tlen == text@.len(),
            plen == pat@.len(),
            n <= i,
            n + occurrence_count(text@.skip(i as int), pat@) == occurrence_count(text@, pat@),
        decreases tlen - i,
    {
        if str_match_at(text, pat, i, tlen, plen) {
            proof {
                assert(text@.skip(i as int).subrange(0, plen as int) =~= text@.subrange(
                    i as int,
                    i + plen as int,
                ));
                assert(occurs_at(text@.skip(i as int), pat@, 0));
                assert(text@.skip(i as int).skip(plen as int) =~= text@.skip(i + plen as int));
                assert(occurrence_count(text@.skip(i as int), pat@) == 1 + occurrence_count(
                    text@.skip(i + plen as int),
                    pat@,
                ));
            }
            n = n + 1;
            i = i + plen;
        } else {
            proof {
                assert(text@.skip(i as int).subrange(0, plen as int) =~= text@.subrange(
                    i as int,
                    i + plen as int,
                ));
                assert(!occurs_at(text@.skip(i as int), pat@, 0));
                assert(text@.skip(i as int).skip(1) =~= text@.skip(i + 1));
                assert(occurrence_count(text@.skip(i as int), pat@) == occurrence_count(
                    text@.skip(i + 1),
                    pat@,
                ));
            }
            i = i + 1;
        }
    }
    proof {
        assert(text@.skip(i as int).len() < plen);
        assert(occurrence_count(text@.skip(i as int), pat@) == 0);
    }
    n
}

} // verus!
