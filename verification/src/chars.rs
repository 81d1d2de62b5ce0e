//! The character classes of the language, and runs of their members.

use vstd::prelude::*;
use crate::std_specs::{
    is_ascii, is_ascii_letter, is_decimal_digit, unicode_alphabetic, unicode_alphanumeric,
};

verus! {

/// Whether a word, that is a keyword or an identifier, can start with `c`:
/// with an alphabetic character.
pub open spec fn is_word_start(c: char) -> bool {
    if is_ascii(c) {
        is_ascii_letter(c)
    } else {
        unicode_alphabetic(c)
    }
}

/// Whether a word can go on with `c`: with an alphabetic or numeric character.
pub open spec fn is_word_part(c: char) -> bool {
    if is_ascii(c) {
        is_ascii_letter(c) || is_decimal_digit(c)
    } else {
        unicode_alphanumeric(c)
    }
}

/// Whether `c` can stand in a number literal: a decimal digit or the point.
pub open spec fn is_number_part(c: char) -> bool {
    is_decimal_digit(c) || c == '.'
}

/// A set of characters of which the tokenizer reads as many as follow one
/// another.
#[derive(Clone, Copy, Debug)]
pub enum CharClass {
    /// The space, U+0020, and nothing else: no tab, no line end.
    Space,
    /// What a word goes on with.
    WordPart,
    /// What a number literal is made of.
    NumberPart,
    /// What the body of a string literal is made of: all but the double quote.
    StringPart,
    /// What a comment is made of: all but carriage return and line feed.
    CommentPart,
}

impl CharClass {
    /// Whether `c` belongs to the class.
    pub open spec fn holds(self, c: char) -> bool {
        match self {
            CharClass::Space => c == ' ',
            CharClass::WordPart => is_word_part(c),
            CharClass::NumberPart => is_number_part(c),
            CharClass::StringPart => c != '"',
            CharClass::CommentPart => c != '\r' && c != '\n',
        }
    }

    /// Tells whether `c` belongs to the class.
    pub fn contains(self, c: char) -> (r: bool)
        ensures
            r == self.holds(c),
    {
        match self {
            CharClass::Space => c == ' ',
            CharClass::WordPart => c.is_alphanumeric(),
            CharClass::NumberPart => c.is_digit(10) || c == '.',
            CharClass::StringPart => c != '"',
            CharClass::CommentPart => c != '\r' && c != '\n',
        }
    }
}

/// The length of the run of `class` that `s` starts with: the number of
/// characters at the front of `s` that all belong to `class`.
pub open spec fn run_len(s: Seq<char>, class: CharClass) -> nat
    decreases s.len(),
{
    if s.len() > 0 && class.holds(s[0]) {
        1 + run_len(s.drop_first(), class)
    } else {
        0
    }
}

/// A run is a prefix of the sequence, all its characters belong to the class,
/// and the character after it, if there is one, does not.
pub proof fn lemma_run_len(s: Seq<char>, class: CharClass)
    ensures
        run_len(s, class) <= s.len(),
        forall|i: int| 0 <= i < run_len(s, class) ==> class.holds(#[trigger] s[i]),
        run_len(s, class) < s.len() ==> !class.holds(s[run_len(s, class) as int]),
    decreases s.len(),
{
    if s.len() > 0 && class.holds(s[0]) {
        let t = s.drop_first();
        lemma_run_len(t, class);
        assert forall|i: int| 0 <= i < run_len(s, class) implies class.holds(#[trigger] s[i]) by {
            if i > 0 {
                assert(s[i] == t[i - 1]);
            }
        }
        if run_len(s, class) < s.len() {
            assert(s[run_len(s, class) as int] == t[run_len(t, class) as int]);
        }
    }
}

/// The run is the only such prefix: if the first `n` characters of `s` belong
/// to the class and the next one does not, or `s` ends there, then the run has
/// length `n`.
pub proof fn lemma_run_len_is(s: Seq<char>, class: CharClass, n: nat)
    requires
        n <= s.len(),
        forall|i: int| 0 <= i < n ==> class.holds(#[trigger] s[i]),
        n < s.len() ==> !class.holds(s[n as int]),
    ensures
        run_len(s, class) == n,
    decreases n,
{
    if n > 0 {
        let t = s.drop_first();
        assert(class.holds(s[0]));
        assert forall|i: int| 0 <= i < n - 1 implies class.holds(#[trigger] t[i]) by {
            assert(t[i] == s[i + 1]);
        }
        if n - 1 < t.len() {
            assert(t[n - 1] == s[n as int]);
        }
        lemma_run_len_is(t, class, (n - 1) as nat);
    }
}

} // verus!
