//! The grammar of the language's tokens, over sequences of characters.
//!
//! [`step`] says which token a source text starts with and what is left of the
//! text after it; [`tokens`] and [`first_error`] say what a whole text holds.

use vstd::prelude::*;
use crate::chars::{
    is_number_part, is_word_part, is_word_start, lemma_run_len, run_len, CharClass,
};
use crate::number::is_decimal_literal;

verus! {

/// What a token is: its kind and, for the kinds that have one, the piece of
/// the source text that it carries.
pub enum TokenView {
    Define,
    Having,
    Assigned,
    Extern,
    Block,
    EndLine,
    Identifier(Seq<char>),
    Number(Seq<char>),
    String(Seq<char>),
    UnknownChar(char),
}

impl TokenView {
    /// Whether the token can come out of a source text at all: whether what it
    /// carries has the shape of its kind.
    ///
    /// An identifier is a word that is no keyword. A number is a decimal
    /// literal. The body of a string holds no double quote. An unknown
    /// character is one that starts nothing else; the apostrophe is among
    /// them, where no `s` follows it.
    pub open spec fn well_formed(self) -> bool {
        match self {
            TokenView::Identifier(text) => {
                &&& text.len() > 0
                &&& is_word_start(text[0])
                &&& forall|i: int| 0 < i < text.len() ==> is_word_part(#[trigger] text[i])
                &&& word_token(text) == self
            },
            TokenView::Number(text) => is_decimal_literal(text),
            TokenView::String(text) => forall|i: int|
                0 <= i < text.len() ==> #[trigger] text[i] != '"',
            TokenView::UnknownChar(c) => {
                &&& !is_word_start(c)
                &&& !is_number_part(c)
                &&& c != '"' && c != '=' && c != '\n' && c != '#' && c != ' '
            },
            _ => true,
        }
    }
}

/// What a scanning error is.
pub enum LexErrorView {
    MalformedNumber(Seq<char>),
}

/// One step of the tokenizer: what it yields, and the source text that is left.
/// The item is `None` at the end of the text.
pub struct Step {
    pub item: Option<Result<TokenView, LexErrorView>>,
    pub rest: Seq<char>,
}

/// The token that a word stands for: one of the three keywords, or else an
/// identifier. Only the whole word counts.
pub open spec fn word_token(word: Seq<char>) -> TokenView {
    if word == "create"@ {
        TokenView::Define
    } else if word == "extern"@ {
        TokenView::Extern
    } else if word == "in"@ {
        TokenView::Block
    } else {
        TokenView::Identifier(word)
    }
}

/// What is left of `s` once the spaces and comments that it starts with are
/// dropped. A comment runs from `#` up to the next carriage return or line
/// feed, which stays, or to the end of the text.
pub open spec fn skip_ignored(s: Seq<char>) -> Seq<char>
    decreases s.len(),
    via skip_ignored_decreases
{
    let t = s.skip(run_len(s, CharClass::Space) as int);
    if t.len() > 0 && t[0] == '#' {
        let body = t.drop_first();
        skip_ignored(body.skip(run_len(body, CharClass::CommentPart) as int))
    } else {
        t
    }
}

#[via_fn]
proof fn skip_ignored_decreases(s: Seq<char>) {
    lemma_run_len(s, CharClass::Space);
    let t = s.skip(run_len(s, CharClass::Space) as int);
    if t.len() > 0 {
        lemma_run_len(t.drop_first(), CharClass::CommentPart);
    }
}

/// The step that starts with the character `c`, which is neither a space nor
/// the start of a comment, when `r` follows it.
pub open spec fn token_at(c: char, r: Seq<char>) -> Step {
    if is_word_start(c) {
        let n = run_len(r, CharClass::WordPart) as int;
        Step { item: Some(Ok(word_token(seq![c] + r.take(n)))), rest: r.skip(n) }
    } else if c == '\'' {
        if r.len() > 0 {
            let token = if r[0] == 's' {
                TokenView::Having
            } else {
                TokenView::UnknownChar(c)
            };
            Step { item: Some(Ok(token)), rest: r.drop_first() }
        } else {
            Step { item: Some(Ok(TokenView::UnknownChar(c))), rest: r }
        }
    } else if is_number_part(c) {
        let n = run_len(r, CharClass::NumberPart) as int;
        let text = seq![c] + r.take(n);
        let item = if is_decimal_literal(text) {
            Ok(TokenView::Number(text))
        } else {
            Err(LexErrorView::MalformedNumber(text))
        };
        Step { item: Some(item), rest: r.skip(n) }
    } else if c == '"' {
        let n = run_len(r, CharClass::StringPart) as int;
        let rest = if n < r.len() {
            r.skip(n + 1)
        } else {
            r.skip(n)
        };
        Step { item: Some(Ok(TokenView::String(r.take(n)))), rest }
    } else if c == '=' {
        Step { item: Some(Ok(TokenView::Assigned)), rest: r }
    } else if c == '\n' {
        Step { item: Some(Ok(TokenView::EndLine)), rest: r }
    } else {
        Step { item: Some(Ok(TokenView::UnknownChar(c))), rest: r }
    }
}

/// One step on the source text `s`: spaces and comments are passed over, and
/// the first character after them decides which token follows.
pub open spec fn step(s: Seq<char>) -> Step {
    let t = skip_ignored(s);
    if t.len() == 0 {
        Step { item: None, rest: t }
    } else {
        token_at(t[0], t.drop_first())
    }
}

/// A step never goes back: what is left after it is the end of what was
/// there before it. A step that yields an item has read at least one
/// character.
pub proof fn lemma_step_advances(s: Seq<char>)
    ensures
        step(s).rest.len() <= s.len(),
        step(s).rest == s.skip(s.len() - step(s).rest.len()),
        step(s).item is Some ==> step(s).rest.len() < s.len(),
{
    lemma_skip_ignored_is_suffix(s);
    let t = skip_ignored(s);
    if t.len() > 0 {
        let r = t.drop_first();
        lemma_run_len(r, CharClass::WordPart);
        lemma_run_len(r, CharClass::NumberPart);
        lemma_run_len(r, CharClass::StringPart);
        let rest = step(s).rest;
        let k = r.len() - rest.len();
        assert(rest == r.skip(k));
        assert(rest == s.skip(s.len() - rest.len()));
    }
}

/// Dropping spaces and comments leaves the end of the text.
pub proof fn lemma_skip_ignored_is_suffix(s: Seq<char>)
    ensures
        skip_ignored(s).len() <= s.len(),
        skip_ignored(s) == s.skip(s.len() - skip_ignored(s).len()),
    decreases s.len(),
{
    lemma_run_len(s, CharClass::Space);
    let t = s.skip(run_len(s, CharClass::Space) as int);
    if t.len() > 0 && t[0] == '#' {
        let body = t.drop_first();
        lemma_run_len(body, CharClass::CommentPart);
        let u = body.skip(run_len(body, CharClass::CommentPart) as int);
        lemma_skip_ignored_is_suffix(u);
        assert(skip_ignored(s) == s.skip(s.len() - skip_ignored(s).len()));
    } else {
        assert(t == s.skip(s.len() - t.len()));
    }
}

/// The tokens of the source text `s`, in order, up to its end or to the first
/// malformed number.
pub open spec fn tokens(s: Seq<char>) -> Seq<TokenView>
    decreases s.len(),
    via tokens_decreases
{
    match step(s).item {
        Some(Ok(token)) => seq![token] + tokens(step(s).rest),
        _ => Seq::empty(),
    }
}

#[via_fn]
proof fn tokens_decreases(s: Seq<char>) {
    lemma_step_advances(s);
}

/// The error that ends the tokens of `s`, if one does: the first malformed
/// number in `s`.
pub open spec fn first_error(s: Seq<char>) -> Option<LexErrorView>
    decreases s.len(),
    via first_error_decreases
{
    match step(s).item {
        Some(Ok(_)) => first_error(step(s).rest),
        Some(Err(error)) => Some(error),
        None => None,
    }
}

#[via_fn]
proof fn first_error_decreases(s: Seq<char>) {
    lemma_step_advances(s);
}

} // verus!
