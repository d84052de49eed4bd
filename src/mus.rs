//! Reading the output of a minimal-unsatisfiable-subset tool: comment
//! lines (`c ...`) and the status line `s UNSATISFIABLE`, then one line
//! `v <index>` per clause of the core, closed by `v 0`. A line ends at a
//! newline, which a carriage return may precede.
use vstd::prelude::*;

verus! {

/// Why the output could not be read.
#[derive(Debug, Clone, Copy, PartialEq, Eq, Structural)]
pub enum MusParseError {
    /// A line that the format does not allow, or no core line at all.
    Malformed,
    /// The core does not end with `v 0`.
    Unterminated,
}

/// The position of the first newline at or after `i`, or the length.
pub open spec fn eol(s: Seq<u8>, i: int) -> int
    decreases s.len() - i,
{
    if i >= s.len() {
        s.len() as int
    } else if s[i] == 10 {
        i
    } else {
        eol(s, i + 1)
    }
}

/// Where the text of the line at `i` stops: before the newline, and before
/// a carriage return that precedes it.
pub open spec fn text_end(s: Seq<u8>, i: int) -> int {
    let e = eol(s, i);
    if e > i && s[e - 1] == 13 {
        e - 1
    } else {
        e
    }
}

/// The text of the line that starts at `i`.
pub open spec fn line_text(s: Seq<u8>, i: int) -> Seq<u8> {
    s.subrange(i, text_end(s, i))
}

/// The bytes of `s UNSATISFIABLE`.
pub open spec fn unsat_text() -> Seq<u8> {
    seq![115u8, 32, 85, 78, 83, 65, 84, 73, 83, 70, 73, 65, 66, 76, 69]
}

/// A comment line: its text starts with `c`.
pub open spec fn is_comment(t: Seq<u8>) -> bool {
    t.len() >= 1 && t[0] == 99
}

/// A decimal digit.
pub open spec fn is_digit(b: u8) -> bool {
    48 <= b <= 57
}

/// The value of a run of decimal digits.
pub open spec fn digits_value(d: Seq<u8>) -> int
    decreases d.len(),
{
    if d.len() == 0 {
        0
    } else {
        digits_value(d.drop_last()) * 10 + (d.last() - 48)
    }
}

/// A core line: `v ` and at least one digit, of a value that fits.
pub open spec fn is_clause_line(t: Seq<u8>) -> bool {
    &&& t.len() >= 3
    &&& t[0] == 118
    &&& t[1] == 32
    &&& forall|k: int| 2 <= k < t.len() ==> is_digit(#[trigger] t[k])
    &&& digits_value(t.subrange(2, t.len() as int)) <= usize::MAX
}

/// The index on a core line.
pub open spec fn clause_value(t: Seq<u8>) -> usize {
    digits_value(t.subrange(2, t.len() as int)) as usize
}

/// The indices of the core lines from position `i` on, or `None` when the
/// rest is not: header lines (only before the first core line), then core
/// lines, each ended by a newline, then the end of the input.
pub open spec fn mus_lines(s: Seq<u8>, i: int, seen_clause: bool) -> Option<Seq<usize>>
    decreases s.len() - i,
{
    if i >= s.len() {
        if seen_clause {
            Some(seq![])
        } else {
            None
        }
    } else if eol(s, i) >= s.len() || eol(s, i) < i {
        None
    } else if !seen_clause && (is_comment(line_text(s, i)) || line_text(s, i) == unsat_text()) {
        mus_lines(s, eol(s, i) + 1, false)
    } else if is_clause_line(line_text(s, i)) {
        match mus_lines(s, eol(s, i) + 1, true) {
            Some(rest) => Some(seq![clause_value(line_text(s, i))] + rest),
            None => None,
        }
    } else {
        None
    }
}

proof fn lemma_eol_bounds(s: Seq<u8>, i: int)
    requires
        0 <= i,
    ensures
        i <= eol(s, i) || i > s.len(),
        eol(s, i) <= s.len(),
        eol(s, i) < s.len() ==> s[eol(s, i)] == 10,
        forall|k: int| i <= k < eol(s, i) ==> s[k] != 10,
    decreases s.len() - i,
{
    if i < s.len() && s[i] != 10 {
        lemma_eol_bounds(s, i + 1);
    }
}

/// The end of the line that starts at `i`.
pub(crate) fn find_eol(s: &[u8], i: usize) -> (r: usize)
    requires
        i <= s@.len(),
    ensures
        r == eol(s@, i as int),
        i <= r <= s@.len(),
{
    proof {
        lemma_eol_bounds(s@, i as int);
    }
    let mut j = i;
    while j < s.len() && s[j] != 10
        invariant
            i <= j <= s@.len(),
            eol(s@, j as int) == eol(s@, i as int),
        decreases s@.len() - j,
    {
        j += 1;
    }
    j
}

/// Where the text of the line `i..e` stops.
fn find_text_end(s: &[u8], i: usize, e: usize) -> (r: usize)
    requires
        i <= e <= s@.len(),
        e == eol(s@, i as int),
    ensures
        r == text_end(s@, i as int),
        i <= r <= e,
{
    if e > i && s[e - 1] == 13 {
        e - 1
    } else {
        e
    }
}

/// Whether the text `s[i..t]` is a comment line.
fn text_is_comment(s: &[u8], i: usize, t: usize) -> (r: bool)
    requires
        i <= t <= s@.len(),
    ensures
        r == is_comment(s@.subrange(i as int, t as int)),
{
    t > i && s[i] == 99
}

/// Whether the text `s[i..t]` is the status line.
fn text_is_unsat(s: &[u8], i: usize, t: usize) -> (r: bool)
    requires
        i <= t <= s@.len(),
    ensures
        r == (s@.subrange(i as int, t as int) == unsat_text()),
{
    let expected: Vec<u8> = vec![115u8, 32, 85, 78, 83, 65, 84, 73, 83, 70, 73, 65, 66, 76, 69];
    assert(expected@ == unsat_text());
    if t - i != expected.len() {
        return false;
    }
    let mut k: usize = 0;
    while k < expected.len()
        invariant
            t - i == expected@.len(),
            i <= t <= s@.len(),
            expected@ == unsat_text(),
            k <= expected@.len(),
            forall|a: int| 0 <= a < k ==> s@[i + a] == expected@[a],
        decreases expected@.len() - k,
    {
        if s[i + k] != expected[k] {
            assert(s@.subrange(i as int, t as int)[k as int] != unsat_text()[k as int]);
            return false;
        }
        k += 1;
    }
    assert(s@.subrange(i as int, t as int) =~= unsat_text());
    true
}

/// The index on the core line `s[i..t]`, if it is one.
fn text_clause_value(s: &[u8], i: usize, t: usize) -> (r: Option<usize>)
    requires
        i <= t <= s@.len(),
    ensures
        r is Some <==> is_clause_line(s@.subrange(i as int, t as int)),
        r is Some ==> r->Some_0 == clause_value(s@.subrange(i as int, t as int)),
{
    let ghost line = s@.subrange(i as int, t as int);
    if t - i < 3 || s[i] != 118 || s[i + 1] != 32 {
        return None;
    }
    let ghost digits = line.subrange(2, line.len() as int);
    let mut value: usize = 0;
    let mut k: usize = i + 2;
    while k < t
        invariant
            i + 2 <= k <= t <= s@.len(),
            line == s@.subrange(i as int, t as int),
            digits == line.subrange(2, line.len() as int),
            forall|a: int| 2 <= a < k - i ==> is_digit(#[trigger] line[a]),
            value == digits_value(digits.take(k - i - 2)),
        decreases t - k,
    {
        let b = s[k];
        proof {
            assert(line[k - i] == b);
            assert(digits.take(k - i - 1).drop_last() =~= digits.take(k - i - 2));
            assert(digits.take(k - i - 1).last() == b);
        }
        if b < 48 || b > 57 {
            assert(!is_digit(line[k - i]));
            return None;
        }
        let d = (b - 48) as usize;
        match value.checked_mul(10) {
            Some(tens) => match tens.checked_add(d) {
                Some(next) => {
                    value = next;
                },
                None => {
                    proof {
                        if forall|a: int| 0 <= a < digits.len() ==> is_digit(#[trigger] digits[a]) {
                            lemma_digits_prefix_bounded(digits, k - i - 1);
                        } else {
                            let a = choose|a: int| 0 <= a < digits.len() && !is_digit(#[trigger] digits[a]);
                            assert(line[a + 2] == digits[a]);
                        }
                    }
                    return None;
                },
            },
            None => {
                proof {
                    if forall|a: int| 0 <= a < digits.len() ==> is_digit(#[trigger] digits[a]) {
                        lemma_digits_prefix_bounded(digits, k - i - 1);
                    } else {
                        let a = choose|a: int| 0 <= a < digits.len() && !is_digit(#[trigger] digits[a]);
                        assert(line[a + 2] == digits[a]);
                    }
                }
                return None;
            },
        }
        k += 1;
    }
    assert(digits.take(k - i - 2) =~= digits);
    Some(value)
}

/// The values in `a` before those of `r`, if `r` has any.
pub open spec fn prepend(a: Seq<usize>, r: Option<Seq<usize>>) -> Option<Seq<usize>> {
    match r {
        Some(rest) => Some(a + rest),
        None => None,
    }
}

/// Reads a comment line at the start of the input; the number of bytes it
/// takes, newline included.
pub fn _parse_comment(input: &[u8]) -> (r: Result<usize, MusParseError>)
    ensures
        r is Ok <==> eol(input@, 0) < input@.len() && is_comment(line_text(input@, 0)),
        r is Ok ==> r->Ok_0 == eol(input@, 0) + 1,
        r is Err ==> r == Err::<usize, MusParseError>(MusParseError::Malformed),
{
    let e = find_eol(input, 0);
    if e == input.len() {
        return Err(MusParseError::Malformed);
    }
    let t = find_text_end(input, 0, e);
    if text_is_comment(input, 0, t) {
        Ok(e + 1)
    } else {
        Err(MusParseError::Malformed)
    }
}

/// Reads the line `s UNSATISFIABLE` at the start of the input; the number
/// of bytes it takes, newline included.
pub fn _parse_unsat(input: &[u8]) -> (r: Result<usize, MusParseError>)
    ensures
        r is Ok <==> eol(input@, 0) < input@.len() && line_text(input@, 0) == unsat_text(),
        r is Ok ==> r->Ok_0 == eol(input@, 0) + 1,
        r is Err ==> r == Err::<usize, MusParseError>(MusParseError::Malformed),
{
    let e = find_eol(input, 0);
    if e == input.len() {
        return Err(MusParseError::Malformed);
    }
    let t = find_text_end(input, 0, e);
    if text_is_unsat(input, 0, t) {
        Ok(e + 1)
    } else {
        Err(MusParseError::Malformed)
    }
}

/// Reads a core line `v <index>` at the start of the input; the number of
/// bytes it takes, newline included, and the index.
pub fn _parse_clause_number(input: &[u8]) -> (r: Result<(usize, usize), MusParseError>)
    ensures
        r is Ok <==> eol(input@, 0) < input@.len() && is_clause_line(line_text(input@, 0)),
        r is Ok ==> r->Ok_0 == (
            (eol(input@, 0) + 1) as usize,
            clause_value(line_text(input@, 0)),
        ),
        r is Err ==> r == Err::<(usize, usize), MusParseError>(MusParseError::Malformed),
{
    let e = find_eol(input, 0);
    if e == input.len() {
        return Err(MusParseError::Malformed);
    }
    let t = find_text_end(input, 0, e);
    match text_clause_value(input, 0, t) {
        Some(value) => Ok((e + 1, value)),
        None => Err(MusParseError::Malformed),
    }
}

/// Reads the whole output and returns the 1-based clause indices of the
/// core, without the closing `0`.
pub fn _parse_mus(input: &[u8]) -> (r: Result<Vec<usize>, MusParseError>)
    ensures
        match mus_lines(input@, 0, false) {
            None => r == Err::<Vec<usize>, MusParseError>(MusParseError::Malformed),
            Some(values) => if values.last() == 0 {
                r is Ok && r->Ok_0@ == values.drop_last()
            } else {
                r == Err::<Vec<usize>, MusParseError>(MusParseError::Unterminated)
            },
        },
{
    let ghost s = input@;
    let mut values: Vec<usize> = Vec::new();
    let mut seen = false;
    let mut i: usize = 0;
    while i < input.len()
        invariant
            s == input@,
            i <= s.len(),
            mus_lines(s, 0, false) == prepend(values@, mus_lines(s, i as int, seen)),
            seen ==> values@.len() > 0,
        decreases s.len() - i,
    {
        let e = find_eol(input, i);
        if e == input.len() {
            return Err(MusParseError::Malformed);
        }
        let t = find_text_end(input, i, e);
        assert(line_text(s, i as int) == s.subrange(i as int, t as int));
        if !seen && (text_is_comment(input, i, t) || text_is_unsat(input, i, t)) {
            i = e + 1;
        } else {
            match text_clause_value(input, i, t) {
                Some(value) => {
                    proof {
                        assert(mus_lines(s, i as int, seen) == prepend(seq![value], mus_lines(s, e + 1, true)));
                        assert(prepend(values@, prepend(seq![value], mus_lines(s, e + 1, true))) == prepend(values@.push(value), mus_lines(s, e + 1, true))) by {
                            if mus_lines(s, e + 1, true) is Some {
                                assert(values@ + (seq![value] + mus_lines(s, e + 1, true)->Some_0) =~= values@.push(value) + mus_lines(s, e + 1, true)->Some_0);
                            }
                        }
                    }
                    values.push(value);
                    seen = true;
                    i = e + 1;
                },
                None => {
                    return Err(MusParseError::Malformed);
                },
            }
        }
    }
    if !seen {
        return Err(MusParseError::Malformed);
    }
    assert(values@ + Seq::<usize>::empty() =~= values@);
    let last = values[values.len() - 1];
    if last != 0 {
        return Err(MusParseError::Unterminated);
    }
    values.pop();
    Ok(values)
}

/// A run of digits is worth at least each of its prefixes times ten.
proof fn lemma_digits_prefix_bounded(d: Seq<u8>, n: int)
    requires
        1 <= n <= d.len(),
        forall|a: int| 0 <= a < d.len() ==> is_digit(#[trigger] d[a]),
    ensures
        digits_value(d) >= digits_value(d.take(n)),
        digits_value(d.take(n)) == digits_value(d.take(n - 1)) * 10 + (d[n - 1] - 48),
        digits_value(d.take(n)) >= 0,
    decreases d.len(),
{
    assert(d.take(n).drop_last() =~= d.take(n - 1));
    lemma_digits_nonneg(d.take(n));
    if n < d.len() {
        lemma_digits_prefix_bounded(d.drop_last(), n);
        assert(d.drop_last().take(n) =~= d.take(n));
        lemma_digits_nonneg(d.drop_last());
        assert forall|a: int| 0 <= a < d.drop_last().len() implies is_digit(#[trigger] d.drop_last()[a]) by {
            assert(d.drop_last()[a] == d[a]);
        }
    } else {
        assert(d.take(n) =~= d);
    }
}

proof fn lemma_digits_nonneg(d: Seq<u8>)
    requires
        forall|a: int| 0 <= a < d.len() ==> is_digit(#[trigger] d[a]),
    ensures
        digits_value(d) >= 0,
    decreases d.len(),
{
    if d.len() > 0 {
        assert forall|a: int| 0 <= a < d.drop_last().len() implies is_digit(#[trigger] d.drop_last()[a]) by {
            assert(d.drop_last()[a] == d[a]);
        }
        lemma_digits_nonneg(d.drop_last());
        assert(is_digit(d[d.len() - 1]));
    }
}

} // verus!
