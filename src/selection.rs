use vstd::prelude::*;

use crate::Error;

verus! {

pub open spec fn is_digit(c: u8) -> bool {
    48 <= c <= 57
}

/// Space, tab, line feed, vertical tab, form feed and carriage return.
pub open spec fn is_blank(c: u8) -> bool {
    c == 32 || (9 <= c <= 13)
}

/// The number that a sequence of decimal digits writes.
pub open spec fn digits_value(s: Seq<u8>) -> int
    decreases s.len(),
{
    if s.len() == 0 {
        0
    } else {
        digits_value(s.drop_last()) * 10 + (s.last() - 48)
    }
}

/// The position of the first byte at or after `i` that is not blank.
pub open spec fn skip_blanks(s: Seq<u8>, i: int) -> int
    decreases s.len() - i,
{
    if i >= s.len() {
        s.len() as int
    } else if is_blank(s[i]) {
        skip_blanks(s, i + 1)
    } else {
        i
    }
}

/// The end of `s[..j]` once trailing blanks are dropped.
pub open spec fn trim_end(s: Seq<u8>, j: int) -> int
    decreases j,
{
    if j <= 0 {
        0
    } else if is_blank(s[j - 1]) {
        trim_end(s, j - 1)
    } else {
        j
    }
}

/// `s` without its leading and trailing blanks.
pub open spec fn trimmed(s: Seq<u8>) -> Seq<u8> {
    let lo = skip_blanks(s, 0);
    let hi = trim_end(s, s.len() as int);
    if lo >= hi {
        Seq::<u8>::empty()
    } else {
        s.subrange(lo, hi)
    }
}

/// The digits of a line of input: the line without blanks around it and
/// without one leading `+`.
pub open spec fn unsigned_digits(line: Seq<u8>) -> Seq<u8> {
    let t = trimmed(line);
    if t.len() > 0 && t[0] == 43 {
        t.subrange(1, t.len() as int)
    } else {
        t
    }
}

/// The ordinal that a line of input writes: decimal digits, maybe after a
/// `+`, with blanks around them; `None` where it writes none or one too large
/// for `usize`.
pub open spec fn ordinal_of(line: Seq<u8>) -> Option<int> {
    let t = unsigned_digits(line);
    if t.len() > 0 && (forall|i: int| 0 <= i < t.len() ==> is_digit(t[i])) && digits_value(t)
        <= usize::MAX {
        Some(digits_value(t))
    } else {
        None
    }
}

proof fn lemma_skip_blanks_bounds(s: Seq<u8>, i: int)
    requires
        0 <= i <= s.len(),
    ensures
        i <= skip_blanks(s, i) <= s.len(),
    decreases s.len() - i,
{
    if i < s.len() && is_blank(s[i]) {
        lemma_skip_blanks_bounds(s, i + 1);
    }
}

proof fn lemma_trim_end_bounds(s: Seq<u8>, j: int)
    requires
        0 <= j <= s.len(),
    ensures
        0 <= trim_end(s, j) <= j,
    decreases j,
{
    if j > 0 && is_blank(s[j - 1]) {
        lemma_trim_end_bounds(s, j - 1);
    }
}

proof fn lemma_digits_value_nonneg(s: Seq<u8>)
    requires
        forall|i: int| 0 <= i < s.len() ==> is_digit(s[i]),
    ensures
        digits_value(s) >= 0,
    decreases s.len(),
{
    if s.len() > 0 {
        lemma_digits_value_nonneg(s.drop_last());
    }
}

/// A prefix of digits is worth no more than the digits it starts.
proof fn lemma_digits_value_grows(s: Seq<u8>, i: int)
    requires
        0 <= i <= s.len(),
        forall|k: int| 0 <= k < s.len() ==> is_digit(s[k]),
    ensures
        digits_value(s.subrange(0, i)) <= digits_value(s),
    decreases s.len() - i,
{
    if i < s.len() {
        lemma_digits_value_grows(s, i + 1);
        let p = s.subrange(0, i + 1);
        assert(p.drop_last() =~= s.subrange(0, i));
        lemma_digits_value_nonneg(s.subrange(0, i));
    } else {
        assert(s.subrange(0, i) =~= s);
    }
}

/// Reads the ordinal that a line of input writes; `InvalidSelection` where it
/// is not a number.
pub fn parse_ordinal(line: &[u8]) -> (r: Result<usize, Error>)
    ensures
        match r {
            Ok(n) => ordinal_of(line@) == Some(n as int),
            Err(e) => e == Error::InvalidSelection && ordinal_of(line@) is None,
        },
{
    let ghost s = line@;
    let mut lo: usize = 0;
    while lo < line.len() && (line[lo] == 32 || (9 <= line[lo] && line[lo] <= 13))
        invariant
            lo <= s.len(),
            s == line@,
            skip_blanks(s, lo as int) == skip_blanks(s, 0),
        decreases line.len() - lo,
    {
        lo = lo + 1;
    }
    let mut hi: usize = line.len();
    while hi > 0 && (line[hi - 1] == 32 || (9 <= line[hi - 1] && line[hi - 1] <= 13))
        invariant
            hi <= s.len(),
            s == line@,
            trim_end(s, hi as int) == trim_end(s, s.len() as int),
        decreases hi,
    {
        hi = hi - 1;
    }
    proof {
        lemma_trim_end_bounds(s, s.len() as int);
    }
    assert(skip_blanks(s, lo as int) == lo);
    assert(trim_end(s, hi as int) == hi);
    let ghost t = trimmed(s);
    if lo >= hi {
        return Err(Error::InvalidSelection);
    }
    assert(t =~= s.subrange(lo as int, hi as int));
    let start: usize = if line[lo] == 43 {
        lo + 1
    } else {
        lo
    };
    let ghost ds = unsigned_digits(s);
    assert(ds =~= s.subrange(start as int, hi as int));
    if start >= hi {
        return Err(Error::InvalidSelection);
    }
    let mut value: usize = 0;
    let mut i: usize = start;
    while i < hi
        invariant
            start <= i <= hi <= s.len(),
            s == line@,
            ds == s.subrange(start as int, hi as int),
            ds == unsigned_digits(s),
            forall|k: int| start <= k < i ==> is_digit(s[k]),
            value as int == digits_value(s.subrange(start as int, i as int)),
        decreases hi - i,
    {
        let c = line[i];
        if c < 48 || c > 57 {
            assert(ds[i - start] == c);
            return Err(Error::InvalidSelection);
        }
        let d = (c - 48) as usize;
        let ghost next = s.subrange(start as int, i + 1);
        assert(next.drop_last() =~= s.subrange(start as int, i as int));
        if value > (usize::MAX - d) / 10 {
            proof {
                assert(digits_value(next) > usize::MAX) by (nonlinear_arith)
                    requires
                        digits_value(next) == value * 10 + d,
                        value > (usize::MAX - d) / 10,
                        d <= 9,
                ;
                if forall|k: int| 0 <= k < ds.len() ==> is_digit(ds[k]) {
                    lemma_digits_value_grows(ds, i + 1 - start);
                    assert(ds.subrange(0, i + 1 - start) =~= next);
                }
            }
            return Err(Error::InvalidSelection);
        }
        assert(value * 10 + d <= usize::MAX) by (nonlinear_arith)
            requires
                value <= (usize::MAX - d) / 10,
                d <= 9,
        ;
        value = value * 10 + d;
        i = i + 1;
    }
    assert(s.subrange(start as int, hi as int) =~= ds);
    Ok(value)
}

/// Reads an ordinal and checks it against a catalog of `count` streams.
pub fn choose_ordinal(line: &[u8], count: usize) -> (r: Result<usize, Error>)
    ensures
        match r {
            Ok(n) => ordinal_of(line@) == Some(n as int) && 1 <= n <= count,
            Err(e) => e == Error::InvalidSelection && match ordinal_of(line@) {
                Some(n) => n < 1 || n > count,
                None => true,
            },
        },
{
    match parse_ordinal(line) {
        Ok(n) => if n >= 1 && n <= count {
            Ok(n)
        } else {
            Err(Error::InvalidSelection)
        },
        Err(e) => Err(e),
    }
}


/// What to do after a line of input was read at the prompt.
#[derive(Debug, Clone, Copy, PartialEq, Eq, Structural)]
pub enum Prompt {
    /// The line chose this ordinal.
    Chosen(usize),
    /// The line was not a valid ordinal: ask again.
    Retry,
    /// The line was not a valid ordinal and no attempt is left.
    GiveUp,
}

/// The interactive choice of a stream, asked again on invalid input: without
/// end, or up to a number of attempts.
pub struct Selector {
    pub count: usize,
    pub attempts: u32,
    pub max_attempts: Option<u32>,
}

impl Selector {
    /// A selector over `count` streams that has seen no input yet.
    pub fn new(count: usize, max_attempts: Option<u32>) -> (r: Selector)
        ensures
            r.count == count,
            r.attempts == 0,
            r.max_attempts == max_attempts,
    {
        Selector { count, attempts: 0, max_attempts }
    }

    /// Takes one line of input. A valid ordinal is chosen; otherwise the
    /// attempt is counted, and the prompt is given up once the attempts reach
    /// the bound.
    pub fn on_line(&mut self, line: &[u8]) -> (r: Prompt)
        ensures
            final(self).count == old(self).count,
            final(self).max_attempts == old(self).max_attempts,
            final(self).attempts == if old(self).attempts < u32::MAX {
                old(self).attempts + 1
            } else {
                old(self).attempts as int
            },
            match ordinal_of(line@) {
                Some(n) => if 1 <= n <= old(self).count {
                    r == Prompt::Chosen(n as usize)
                } else {
                    r == (match old(self).max_attempts {
                        Some(m) => if final(self).attempts >= m {
                            Prompt::GiveUp
                        } else {
                            Prompt::Retry
                        },
                        None => Prompt::Retry,
                    })
                },
                None => r == (match old(self).max_attempts {
                    Some(m) => if final(self).attempts >= m {
                        Prompt::GiveUp
                    } else {
                        Prompt::Retry
                    },
                    None => Prompt::Retry,
                }),
            },
    {
        if self.attempts < u32::MAX {
            self.attempts = self.attempts + 1;
        }
        match choose_ordinal(line, self.count) {
            Ok(n) => Prompt::Chosen(n),
            Err(_) => match self.max_attempts {
                Some(m) => if self.attempts >= m {
                    Prompt::GiveUp
                } else {
                    Prompt::Retry
                },
                None => Prompt::Retry,
            },
        }
    }
}

} // verus!
