//! Visitor counter.
//!
//! The counter itself is a plain in-memory value; reading the saved count
//! from disk and writing the new count back are done by the surrounding
//! program, which hands the file contents in and takes the new count out.

use vstd::prelude::*;

verus! {

/// A saved count is accepted exactly when it is a non-empty string of
/// decimal digits whose value fits in `usize`; anything else (including a
/// missing file) starts the counter at zero.
pub open spec fn is_digit(c: char) -> bool {
    48 <= c as u32 <= 57
}

/// Numeric value of a digit character.
pub open spec fn digit_val(c: char) -> int {
    c as u32 - 48
}

/// Value of a digit string, most significant digit first.
pub open spec fn digits_val(s: Seq<char>) -> int
    decreases s.len(),
{
    if s.len() == 0 {
        0
    } else {
        digits_val(s.drop_last()) * 10 + digit_val(s.last())
    }
}

/// A string parses as a count when it is non-empty, all digits, and its
/// value fits in `usize`.
pub open spec fn parses_as_count(s: Seq<char>) -> bool {
    &&& s.len() > 0
    &&& forall|i: int| 0 <= i < s.len() ==> is_digit(#[trigger] s[i])
    &&& digits_val(s) <= usize::MAX
}

proof fn lemma_digits_val_nonneg(s: Seq<char>)
    requires
        forall|i: int| 0 <= i < s.len() ==> is_digit(#[trigger] s[i]),
    ensures
        digits_val(s) >= 0,
    decreases s.len(),
{
    if s.len() > 0 {
        lemma_digits_val_nonneg(s.drop_last());
    }
}

proof fn lemma_digits_val_take_succ(s: Seq<char>, i: int)
    requires
        0 <= i < s.len(),
    ensures
        digits_val(s.take(i + 1)) == digits_val(s.take(i)) * 10 + digit_val(s[i]),
{
    assert(s.take(i + 1).drop_last() =~= s.take(i));
    assert(s.take(i + 1).last() == s[i]);
}

/// A digit string is at least as large as the value of any of its prefixes.
proof fn lemma_digits_val_prefix_le(s: Seq<char>, i: int)
    requires
        forall|j: int| 0 <= j < s.len() ==> is_digit(#[trigger] s[j]),
        0 <= i <= s.len(),
    ensures
        digits_val(s.take(i)) <= digits_val(s),
    decreases s.len() - i,
{
    if i == s.len() {
        assert(s.take(i) =~= s);
    } else {
        lemma_digits_val_take_succ(s, i);
        lemma_digits_val_nonneg(s.take(i));
        lemma_digits_val_prefix_le(s, i + 1);
    }
}

/// In-memory visitor counter, kept by the serving process and persisted by
/// it as a decimal string between runs.
pub struct Counter {
    count: usize,
}

impl Counter {
    /// The current count.
    pub closed spec fn value(&self) -> usize {
        self.count
    }

    /// Starts the counter from a saved decimal string, or from zero when
    /// nothing was saved or the saved text is not a count.
    pub fn new(saved: Option<&str>) -> (counter: Counter)
        ensures
            counter.value() == match saved {
                Some(s) => if parses_as_count(s@) {
                    digits_val(s@)
                } else {
                    0
                },
                None => 0,
            },
    {
        match saved {
            None => Counter { count: 0 },
            Some(s) => Counter { count: parse_count(s) },
        }
    }

    pub fn get_count(&self) -> (count: usize)
        ensures
            count == self.value(),
    {
        self.count
    }

    /// Advances the counter by one and returns the updated value.
    pub fn increment(&mut self) -> (new_count: usize)
        requires
            old(self).value() < usize::MAX,
        ensures
            final(self).value() == old(self).value() + 1,
            new_count == final(self).value(),
    {
        let new_count = fetch_plus(self.count, 1);
        self.count = new_count;
        new_count
    }
}

/// Like a fetch-and-add on `count`, but returns the updated value.
pub fn fetch_plus(count: usize, val: usize) -> (sum: usize)
    requires
        count + val <= usize::MAX,
    ensures
        sum == count + val,
{
    count + val
}

/// Parses a non-empty all-digit string to its value; any other input
/// (empty, a stray character, a value past `usize::MAX`) yields zero.
fn parse_count(s: &str) -> (count: usize)
    ensures
        count == if parses_as_count(s@) {
            digits_val(s@)
        } else {
            0
        },
{
    let n = s.unicode_len();
    if n == 0 {
        return 0;
    }
    let mut acc: usize = 0;
    let mut i: usize = 0;
    while i < n
        invariant
            0 <= i <= n,
            n == s@.len(),
            forall|j: int| 0 <= j < i ==> is_digit(#[trigger] s@[j]),
            acc == digits_val(s@.take(i as int)),
        decreases n - i,
    {
        let c = s.get_char(i);
        let cv = c as u32;
        if cv < 48 || cv > 57 {
            return 0;
        }
        let d = (cv - 48) as usize;
        proof {
            lemma_digits_val_take_succ(s@, i as int);
        }
        if acc > (usize::MAX - d) / 10 {
            // The prefix alone is already too large, so the whole string
            // cannot represent a count that fits in usize.
            proof {
                if forall|j: int| 0 <= j < s@.len() ==> is_digit(#[trigger] s@[j]) {
                    lemma_digits_val_prefix_le(s@, i as int + 1);
                }
            }
            return 0;
        }
        acc = acc * 10 + d;
        i = i + 1;
    }
    proof {
        assert(s@.take(n as int) =~= s@);
    }
    acc
}

} // verus!
