//! Decimal literals: which runs of digits and points are numbers.

use vstd::prelude::*;
use crate::chars::is_number_part;

verus! {

/// How often `c` occurs in `s`.
pub open spec fn occurrences(s: Seq<char>, c: char) -> nat
    decreases s.len(),
{
    if s.len() == 0 {
        0
    } else {
        occurrences(s.drop_last(), c) + if s.last() == c { 1nat } else { 0nat }
    }
}

/// Whether `text` is a decimal number: digits with at most one point among
/// them, before them or after them, and at least one digit.
pub open spec fn is_decimal_literal(text: Seq<char>) -> bool {
    &&& forall|i: int| 0 <= i < text.len() ==> is_number_part(#[trigger] text[i])
    &&& occurrences(text, '.') <= 1
    &&& occurrences(text, '.') < text.len()
}

/// A character occurs in a sequence at most as often as the sequence is long,
/// and one more character adds one occurrence or none.
pub proof fn lemma_occurrences_push(s: Seq<char>, next: char, c: char)
    ensures
        occurrences(s, c) <= s.len(),
        occurrences(s.push(next), c) == occurrences(s, c) + if next == c { 1nat } else { 0nat },
    decreases s.len(),
{
    assert(s.push(next).drop_last() == s);
    if s.len() > 0 {
        lemma_occurrences_push(s.drop_last(), s.last(), c);
        assert(s.drop_last().push(s.last()) == s);
    }
}

/// Tells whether `text` is a decimal number.
pub fn is_decimal(text: &str) -> (r: bool)
    ensures
        r == is_decimal_literal(text@),
{
    let mut clean = true;
    let mut digit_seen = false;
    let mut points: u8 = 0;
    for c in it: text.chars()
        invariant
            it.seq() == text@,
            clean == forall|i: int| 0 <= i < it.index() ==> is_number_part(#[trigger] text@[i]),
            clean ==> digit_seen == (occurrences(text@.take(it.index() as int), '.')
                < it.index()),
            points <= 2,
            points < 2 ==> points == occurrences(text@.take(it.index() as int), '.'),
            points == 2 ==> occurrences(text@.take(it.index() as int), '.') >= 2,
    {
        proof {
            let seen = text@.take(it.index() as int);
            lemma_occurrences_push(seen, c, '.');
            assert(seen.push(c) == text@.take(it.index() + 1));
        }
        if c == '.' {
            if points < 2 {
                points = points + 1;
            }
        } else if c.is_digit(10) {
            digit_seen = true;
        } else {
            clean = false;
        }
    }
    assert(text@.take(text@.len() as int) == text@);
    clean && digit_seen && points <= 1
}

} // verus!
