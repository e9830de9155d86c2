use vstd::prelude::*;

verus! {

use vstd::string::StrSliceExecFns;
use crate::totp::digit_char;

/// The whitespace characters stripped from an interactive input line: the
/// blanks and line ends a terminal read leaves around an answer.
pub open spec fn ws_char(c: char) -> bool {
    c == ' ' || c == '\t' || c == '\n' || c == '\r'
}

/// A character sequence with its leading whitespace dropped.
pub open spec fn trim_start(s: Seq<char>) -> Seq<char>
    decreases s.len(),
{
    if s.len() > 0 && ws_char(s[0]) {
        trim_start(s.drop_first())
    } else {
        s
    }
}

/// A character sequence with its trailing whitespace dropped.
pub open spec fn trim_end(s: Seq<char>) -> Seq<char>
    decreases s.len(),
{
    if s.len() > 0 && ws_char(s.last()) {
        trim_end(s.drop_last())
    } else {
        s
    }
}

/// An input line with leading and trailing whitespace dropped.
pub open spec fn spec_trimmed(s: Seq<char>) -> Seq<char> {
    trim_end(trim_start(s))
}

/// Whether an input line answers a destructive-operation prompt in the
/// affirmative: exactly the word `yes`, case-sensitively, once surrounding
/// whitespace is dropped. Anything else declines.
pub open spec fn spec_confirmed(s: Seq<char>) -> bool {
    spec_trimmed(s) == seq!['y', 'e', 's']
}

proof fn lemma_trim_start_step(s: Seq<char>, lo: int)
    requires
        0 <= lo < s.len(),
        ws_char(s[lo]),
        trim_start(s) == trim_start(s.skip(lo)),
    ensures
        trim_start(s) == trim_start(s.skip(lo + 1)),
{
    assert(s.skip(lo).drop_first() =~= s.skip(lo + 1));
    assert(s.skip(lo)[0] == s[lo]);
}

proof fn lemma_trim_end_step(t: Seq<char>, hi: int)
    requires
        0 < hi <= t.len(),
        ws_char(t[hi - 1]),
        trim_end(t) == trim_end(t.take(hi)),
    ensures
        trim_end(t) == trim_end(t.take(hi - 1)),
{
    assert(t.take(hi).drop_last() =~= t.take(hi - 1));
    assert(t.take(hi).last() == t[hi - 1]);
}

/// The bounds of an input line's content: the trimmed line is exactly
/// `input@.subrange(lo, hi)`.
fn trim_bounds(input: &str) -> (r: (usize, usize))
    ensures
        0 <= r.0 <= r.1 <= input@.len(),
        spec_trimmed(input@) == input@.subrange(r.0 as int, r.1 as int),
{
    let n = input.unicode_len();
    let mut lo: usize = 0;
    proof {
        assert(input@.skip(0) =~= input@);
    }
    loop
        invariant
            0 <= lo <= n == input@.len(),
            trim_start(input@) == trim_start(input@.skip(lo as int)),
        ensures
            0 <= lo <= n == input@.len(),
            trim_start(input@) == trim_start(input@.skip(lo as int)),
            lo == n || !ws_char(input@[lo as int]),
        decreases n - lo,
    {
        if lo == n {
            break;
        }
        let c = input.get_char(lo);
        if !(c == ' ' || c == '\t' || c == '\n' || c == '\r') {
            break;
        }
        proof {
            lemma_trim_start_step(input@, lo as int);
        }
        lo = lo + 1;
    }
    proof {
        if lo < n {
            assert(input@.skip(lo as int)[0] == input@[lo as int]);
        }
        assert(trim_start(input@) == input@.skip(lo as int));
    }
    let mut hi: usize = n;
    proof {
        assert(input@.skip(lo as int).take(n - lo as int) =~= input@.skip(lo as int));
    }
    loop
        invariant
            lo <= hi <= n == input@.len(),
            trim_start(input@) == input@.skip(lo as int),
            trim_end(input@.skip(lo as int)) == trim_end(
                input@.skip(lo as int).take(hi - lo as int),
            ),
        ensures
            lo <= hi <= n == input@.len(),
            trim_end(input@.skip(lo as int)) == trim_end(
                input@.skip(lo as int).take(hi - lo as int),
            ),
            hi == lo || !ws_char(input@[hi - 1]),
        decreases hi,
    {
        if hi == lo {
            break;
        }
        let c = input.get_char(hi - 1);
        if !(c == ' ' || c == '\t' || c == '\n' || c == '\r') {
            break;
        }
        proof {
            let t = input@.skip(lo as int);
            assert(t.take(hi - lo as int)[hi - 1 - lo as int] == input@[hi - 1]);
            lemma_trim_end_step(t, hi - lo as int);
        }
        hi = hi - 1;
    }
    proof {
        let t = input@.skip(lo as int);
        let m = hi - lo as int;
        if hi > lo {
            assert(t.take(m)[m - 1] == input@[hi - 1]);
            assert(t.take(m).last() == t.take(m)[m - 1]);
        }
        assert(trim_end(t.take(m)) == t.take(m));
        assert(t.take(m) =~= input@.subrange(lo as int, hi as int));
    }
    (lo, hi)
}

/// Whether an input line confirms a destructive operation.
pub fn is_confirmed(input: &str) -> (b: bool)
    ensures
        b == spec_confirmed(input@),
{
    let (lo, hi) = trim_bounds(input);
    if hi - lo != 3 {
        proof {
            assert(spec_trimmed(input@).len() == hi - lo as int);
        }
        return false;
    }
    let c0 = input.get_char(lo);
    let c1 = input.get_char(lo + 1);
    let c2 = input.get_char(lo + 2);
    let b = c0 == 'y' && c1 == 'e' && c2 == 's';
    proof {
        let t = spec_trimmed(input@);
        assert(t[0] == input@[lo as int]);
        assert(t[1] == input@[lo as int + 1]);
        assert(t[2] == input@[lo as int + 2]);
        if b {
            assert(t =~= seq!['y', 'e', 's']);
        } else {
            assert(t != seq!['y', 'e', 's']);
        }
    }
    b
}

/// The numeric value of a run of decimal digit characters, most significant
/// first.
pub open spec fn digits_value(s: Seq<char>) -> int
    decreases s.len(),
{
    if s.len() == 0 {
        0
    } else {
        digits_value(s.drop_last()) * 10 + (s.last() as int - '0' as int)
    }
}

/// What an interactively typed row selection means: the number the line
/// spells in decimal once trimmed, where it is nothing but one or more
/// digits and fits a `usize`; anything else means no valid selection.
pub open spec fn spec_selection(s: Seq<char>) -> Option<int> {
    let t = spec_trimmed(s);
    if t.len() > 0 && (forall|i: int| 0 <= i < t.len() ==> digit_char(#[trigger] t[i]))
        && digits_value(t) <= usize::MAX {
        Some(digits_value(t))
    } else {
        None
    }
}

proof fn lemma_digits_value_nonneg(s: Seq<char>)
    requires
        forall|i: int| 0 <= i < s.len() ==> digit_char(#[trigger] s[i]),
    ensures
        digits_value(s) >= 0,
    decreases s.len(),
{
    if s.len() > 0 {
        lemma_digits_value_nonneg(s.drop_last());
    }
}

proof fn lemma_digits_value_mono(s: Seq<char>, k: int)
    requires
        forall|i: int| 0 <= i < s.len() ==> digit_char(#[trigger] s[i]),
        0 <= k <= s.len(),
    ensures
        digits_value(s) >= digits_value(s.take(k)),
    decreases s.len(),
{
    if k < s.len() {
        assert(s.drop_last().take(k) =~= s.take(k));
        lemma_digits_value_mono(s.drop_last(), k);
        lemma_digits_value_nonneg(s.drop_last());
    } else {
        assert(s.take(k) =~= s);
    }
}

/// Parse an interactive row selection: the trimmed line read as a decimal
/// number, `None` where it is empty, holds a non-digit, or overflows.
pub fn parse_selection(input: &str) -> (r: Option<usize>)
    ensures
        r is Some <==> spec_selection(input@) is Some,
        r is Some ==> spec_selection(input@) == Some(r->0 as int),
{
    let (lo, hi) = trim_bounds(input);
    let ghost t = spec_trimmed(input@);
    if lo == hi {
        return None;
    }
    let mut acc: usize = 0;
    let mut i: usize = lo;
    proof {
        assert(t.take(0) =~= Seq::<char>::empty());
    }
    while i < hi
        invariant
            lo <= i <= hi <= input@.len(),
            t == spec_trimmed(input@),
            t == input@.subrange(lo as int, hi as int),
            hi > lo,
            forall|j: int| 0 <= j < i - lo ==> digit_char(#[trigger] t[j]),
            acc == digits_value(t.take(i - lo as int)),
        decreases hi - i,
    {
        let c = input.get_char(i);
        proof {
            assert(t[i - lo as int] == input@[i as int]);
        }
        if !(c >= '0' && c <= '9') {
            proof {
                assert(!(forall|j: int| 0 <= j < t.len() ==> digit_char(#[trigger] t[j]))) by {
                    assert(!digit_char(t[i - lo as int]));
                }
            }
            return None;
        }
        let d = (c as u32 - '0' as u32) as usize;
        proof {
            assert(t.take(i + 1 - lo as int).drop_last() =~= t.take(i - lo as int));
            assert(t.take(i + 1 - lo as int).last() == t[i - lo as int]);
        }
        if acc > (usize::MAX - d) / 10 {
            proof {
                let m = i + 1 - lo as int;
                assert(digits_value(t.take(m)) == acc * 10 + d);
                assert(acc * 10 + d > usize::MAX) by (nonlinear_arith)
                    requires
                        acc > (usize::MAX - d) / 10,
                        d <= 9,
                {
                }
                if forall|j: int| 0 <= j < t.len() ==> digit_char(#[trigger] t[j]) {
                    lemma_digits_value_mono(t, m);
                }
            }
            return None;
        }
        acc = acc * 10 + d;
        i = i + 1;
    }
    proof {
        assert(t.take(hi - lo as int) =~= t);
    }
    Some(acc)
}

} // verus!
