//! What holds of every source text: laws that follow from the grammar.

use vstd::prelude::*;
use crate::chars::{
    is_number_part, is_word_start, lemma_run_len, lemma_run_len_is, run_len, CharClass,
};
use crate::grammar::{
    first_error, lemma_skip_ignored_is_suffix, lemma_step_advances, skip_ignored, step, token_at,
    tokens, LexErrorView, TokenView,
};
use crate::number::is_decimal_literal;

verus! {

/// Whether `s` holds spaces only. The empty text does.
pub open spec fn is_blank(s: Seq<char>) -> bool {
    forall|i: int| 0 <= i < s.len() ==> #[trigger] s[i] == ' '
}

/// Whether `s` is a comment: a `#`, and behind it anything but a carriage
/// return or a line feed.
pub open spec fn is_comment(s: Seq<char>) -> bool {
    &&& s.len() > 0
    &&& s[0] == '#'
    &&& forall|i: int| 0 < i < s.len() ==> #[trigger] s[i] != '\r' && s[i] != '\n'
}

/// Whether a comment ends in front of `s`: whether `s` is empty or starts with
/// a carriage return or a line feed.
pub open spec fn ends_comment(s: Seq<char>) -> bool {
    s.len() == 0 || s[0] == '\r' || s[0] == '\n'
}

/// Whether the first token of `s` is a string literal that the text ends in:
/// one whose closing double quote is missing.
pub open spec fn opens_unclosed_string(s: Seq<char>) -> bool {
    let t = skip_ignored(s);
    t.len() > 0 && t[0] == '"' && run_len(t.drop_first(), CharClass::StringPart) + 1 == t.len()
}

/// Whether the first token of `s` starts with an apostrophe that the text
/// ends with.
pub open spec fn opens_last_apostrophe(s: Seq<char>) -> bool {
    let t = skip_ignored(s);
    t.len() == 1 && t[0] == '\''
}

/// What is left of `s` after `n` steps.
pub open spec fn rest_after(s: Seq<char>, n: nat) -> Seq<char>
    decreases n,
{
    if n == 0 {
        s
    } else {
        rest_after(step(s).rest, (n - 1) as nat)
    }
}

/// A text of nothing but spaces holds no token: the first step on it is the
/// end, and the step leaves nothing.
pub proof fn lemma_blank_text_has_no_tokens(s: Seq<char>)
    requires
        is_blank(s),
    ensures
        step(s).item is None,
        step(s).rest == Seq::<char>::empty(),
        tokens(s) == Seq::<TokenView>::empty(),
        first_error(s) is None,
{
    lemma_run_len_is(s, CharClass::Space, s.len());
    assert(s.skip(s.len() as int) == Seq::<char>::empty());
}

/// Spaces in front of a text change nothing: the first step yields the same
/// item and leaves the same rest, and so the text holds the same tokens and
/// the same error.
pub proof fn lemma_leading_spaces_are_skipped(spaces: Seq<char>, s: Seq<char>)
    requires
        is_blank(spaces),
    ensures
        step(spaces + s) == step(s),
        tokens(spaces + s) == tokens(s),
        first_error(spaces + s) == first_error(s),
{
    let whole = spaces + s;
    let n = run_len(s, CharClass::Space);
    lemma_run_len(s, CharClass::Space);
    assert forall|i: int| 0 <= i < spaces.len() + n implies CharClass::Space.holds(
        #[trigger] whole[i],
    ) by {
        if i < spaces.len() {
            assert(whole[i] == spaces[i]);
        } else {
            assert(whole[i] == s[i - spaces.len()]);
        }
    }
    if n < s.len() {
        assert(whole[(spaces.len() + n) as int] == s[n as int]);
    }
    lemma_run_len_is(whole, CharClass::Space, spaces.len() + n);
    assert(whole.skip((spaces.len() + n) as int) == s.skip(n as int));
}

/// A comment yields no token. A text that starts with a comment is read as if
/// it started behind the comment, at the end of the line: at the first
/// carriage return or line feed, or at the end of the text.
pub proof fn lemma_comment_is_skipped(comment: Seq<char>, rest: Seq<char>)
    requires
        is_comment(comment),
        ends_comment(rest),
    ensures
        step(comment + rest) == step(rest),
        tokens(comment + rest) == tokens(rest),
        first_error(comment + rest) == first_error(rest),
{
    let s = comment + rest;
    let after = s.drop_first();
    let n = (comment.len() - 1) as nat;
    assert(run_len(s, CharClass::Space) == 0);
    assert(s.skip(0) == s);
    assert forall|i: int| 0 <= i < n implies CharClass::CommentPart.holds(#[trigger] after[i]) by {
        assert(after[i] == comment[i + 1]);
    }
    if rest.len() > 0 {
        assert(after[n as int] == rest[0]);
    }
    lemma_run_len_is(after, CharClass::CommentPart, n);
    assert(after.skip(n as int) == rest);
    assert(skip_ignored(s) == skip_ignored(rest));
}

/// The end is stable: once a step finds no token, nothing is left of the
/// text, and every further step finds no token either.
pub proof fn lemma_end_is_stable(s: Seq<char>)
    requires
        step(s).item is None,
    ensures
        step(s).rest == Seq::<char>::empty(),
        step(step(s).rest) == step(s),
        tokens(s) == Seq::<TokenView>::empty(),
        first_error(s) is None,
{
    let end = step(s).rest;
    assert(end == Seq::<char>::empty());
    lemma_blank_text_has_no_tokens(end);
}

/// What is left once spaces and comments are dropped starts with neither.
proof fn lemma_skip_ignored_stops_at_a_token(s: Seq<char>)
    ensures
        skip_ignored(s).len() > 0 ==> skip_ignored(s)[0] != ' ' && skip_ignored(s)[0] != '#',
    decreases s.len(),
{
    lemma_run_len(s, CharClass::Space);
    let t = s.skip(run_len(s, CharClass::Space) as int);
    if t.len() > 0 && t[0] == '#' {
        let body = t.drop_first();
        lemma_run_len(body, CharClass::CommentPart);
        lemma_skip_ignored_stops_at_a_token(body.skip(run_len(body, CharClass::CommentPart) as int));
    }
}

/// Every token that a step yields is well formed, and the run that comes
/// back as an error is a run of digits and points that is no decimal number.
pub proof fn lemma_items_are_well_formed(s: Seq<char>)
    ensures
        match step(s).item {
            Some(Ok(token)) => token.well_formed(),
            Some(Err(LexErrorView::MalformedNumber(text))) => {
                &&& text.len() > 0
                &&& forall|i: int| 0 <= i < text.len() ==> is_number_part(#[trigger] text[i])
                &&& !is_decimal_literal(text)
            },
            None => true,
        },
{
    lemma_skip_ignored_stops_at_a_token(s);
    let t = skip_ignored(s);
    if t.len() > 0 {
        let r = t.drop_first();
        lemma_run_len(r, CharClass::WordPart);
        lemma_run_len(r, CharClass::NumberPart);
        lemma_run_len(r, CharClass::StringPart);
    }
}

/// What a token carries stands in the source, character for character. A
/// word, a number or a malformed run starts where the spaces and comments in
/// front of it end; the body of a string starts one character further on,
/// behind the opening double quote; an unknown character is the character
/// that stands there.
pub proof fn lemma_payload_stands_in_source(s: Seq<char>)
    ensures
        skip_ignored(s).len() <= s.len(),
        ({
            let from = s.len() - skip_ignored(s).len();
            match step(s).item {
                Some(Ok(TokenView::Identifier(text))) => text == s.subrange(
                    from,
                    from + text.len(),
                ),
                Some(Ok(TokenView::Number(text))) => text == s.subrange(from, from + text.len()),
                Some(Ok(TokenView::String(text))) => text == s.subrange(
                    from + 1,
                    from + 1 + text.len(),
                ),
                Some(Ok(TokenView::UnknownChar(c))) => c == s[from],
                Some(Err(LexErrorView::MalformedNumber(text))) => text == s.subrange(
                    from,
                    from + text.len(),
                ),
                _ => true,
            }
        }),
{
    lemma_skip_ignored_is_suffix(s);
    let t = skip_ignored(s);
    if t.len() > 0 {
        let r = t.drop_first();
        lemma_run_len(r, CharClass::WordPart);
        lemma_run_len(r, CharClass::NumberPart);
        lemma_run_len(r, CharClass::StringPart);
    }
}

/// What is passed over in front of a token depends on nothing behind the
/// token's first character.
proof fn lemma_skip_ignored_looks_no_further(s: Seq<char>, other: Seq<char>)
    requires
        skip_ignored(s).len() > 0,
        other.len() > s.len() - skip_ignored(s).len(),
        other.take(s.len() - skip_ignored(s).len() + 1) == s.take(
            s.len() - skip_ignored(s).len() + 1,
        ),
    ensures
        skip_ignored(other) == other.skip(s.len() - skip_ignored(s).len()),
    decreases s.len(),
{
    lemma_skip_ignored_is_suffix(s);
    let j = s.len() - skip_ignored(s).len();
    let a = run_len(s, CharClass::Space);
    lemma_run_len(s, CharClass::Space);
    let t = s.skip(a as int);
    assert forall|i: int| 0 <= i <= j implies other[i] == s[i] by {
        assert(other[i] == other.take(j + 1)[i]);
        assert(s[i] == s.take(j + 1)[i]);
    }
    if t.len() > 0 && t[0] == '#' {
        let body = t.drop_first();
        let n = run_len(body, CharClass::CommentPart);
        lemma_run_len(body, CharClass::CommentPart);
        let u = body.skip(n as int);
        lemma_skip_ignored_is_suffix(u);
        assert(skip_ignored(s) == skip_ignored(u));
        assert(a + 1 + n <= j);
        lemma_run_len_is(other, CharClass::Space, a);
        let t2 = other.skip(a as int);
        let body2 = t2.drop_first();
        assert forall|i: int| 0 <= i < n implies CharClass::CommentPart.holds(
            #[trigger] body2[i],
        ) by {
            assert(body2[i] == body[i]);
        }
        assert(body2[n as int] == body[n as int]);
        lemma_run_len_is(body2, CharClass::CommentPart, n);
        let u2 = body2.skip(n as int);
        let ju = u.len() - skip_ignored(u).len();
        assert(ju == j - (a + 1 + n));
        assert(u2.take(ju + 1) == u.take(ju + 1)) by {
            assert forall|i: int| 0 <= i < ju + 1 implies #[trigger] u2[i] == u[i] by {
                assert(u2[i] == other[a + 1 + n + i]);
                assert(u[i] == s[a + 1 + n + i]);
            }
        }
        lemma_skip_ignored_looks_no_further(u, u2);
        assert(u2.skip(ju) == other.skip(j));
    } else {
        assert(j == a);
        lemma_run_len_is(other, CharClass::Space, a);
    }
}

/// The token that starts with `c` is decided by the characters that it is
/// made of and the one behind them.
proof fn lemma_token_at_looks_one_ahead(c: char, r: Seq<char>, other: Seq<char>)
    requires
        0 < token_at(c, r).rest.len() <= r.len(),
        r.len() - token_at(c, r).rest.len() < other.len(),
        other.take(r.len() - token_at(c, r).rest.len() + 1) == r.take(
            r.len() - token_at(c, r).rest.len() + 1,
        ),
    ensures
        token_at(c, other).item == token_at(c, r).item,
        token_at(c, other).rest == other.skip(r.len() - token_at(c, r).rest.len()),
{
    let m = r.len() - token_at(c, r).rest.len();
    lemma_run_len(r, CharClass::WordPart);
    lemma_run_len(r, CharClass::NumberPart);
    lemma_run_len(r, CharClass::StringPart);
    assert forall|i: int| 0 <= i <= m implies other[i] == r[i] by {
        assert(other[i] == other.take(m + 1)[i]);
        assert(r[i] == r.take(m + 1)[i]);
    }
    if is_word_start(c) {
        lemma_run_len_is(other, CharClass::WordPart, m as nat);
        assert(other.take(m) == r.take(m));
    } else if c == '\'' {
    } else if is_number_part(c) {
        lemma_run_len_is(other, CharClass::NumberPart, m as nat);
        assert(other.take(m) == r.take(m));
    } else if c == '"' {
        lemma_run_len_is(other, CharClass::StringPart, (m - 1) as nat);
        assert(other.take(m - 1) == r.take(m - 1));
    } else {
        assert(other.skip(0) == other);
    }
}

/// The tokenizer looks one character ahead and no further. Where a step stops
/// before the end of a text, every text that starts with the same characters,
/// up to and with the one at which the step stops, gives the same item, and
/// the step stops at the same place.
pub proof fn lemma_step_looks_one_ahead(s: Seq<char>, other: Seq<char>)
    requires
        0 < step(s).rest.len(),
        s.len() - step(s).rest.len() < other.len(),
        other.take(s.len() - step(s).rest.len() + 1) == s.take(
            s.len() - step(s).rest.len() + 1,
        ),
    ensures
        step(other).item == step(s).item,
        step(other).rest == other.skip(s.len() - step(s).rest.len()),
{
    lemma_step_advances(s);
    lemma_skip_ignored_is_suffix(s);
    let k = s.len() - step(s).rest.len();
    let t = skip_ignored(s);
    let j = s.len() - t.len();
    let c = t[0];
    let r = t.drop_first();
    lemma_run_len(r, CharClass::WordPart);
    lemma_run_len(r, CharClass::NumberPart);
    lemma_run_len(r, CharClass::StringPart);
    assert(step(s) == token_at(c, r));
    let m = r.len() - token_at(c, r).rest.len();
    assert(k == j + 1 + m);
    assert forall|i: int| 0 <= i <= k implies other[i] == s[i] by {
        assert(other[i] == other.take(k + 1)[i]);
        assert(s[i] == s.take(k + 1)[i]);
    }
    assert(other.take(j + 1) == s.take(j + 1));
    lemma_skip_ignored_looks_no_further(s, other);
    let t2 = other.skip(j);
    let r2 = t2.drop_first();
    assert(t2[0] == other[j]);
    assert(r2.take(m + 1) == r.take(m + 1)) by {
        assert forall|i: int| 0 <= i < m + 1 implies #[trigger] r2[i] == r[i] by {
            assert(r2[i] == other[j + 1 + i]);
            assert(r[i] == s[j + 1 + i]);
        }
    }
    lemma_token_at_looks_one_ahead(c, r, r2);
    assert(r2.skip(m) == other.skip(k));
}

/// Whether `x` can stand between two tokens, in front of `rest`, and count
/// for nothing: whether it is made of spaces, or of spaces and a comment
/// that ends in front of `rest`.
spec fn fills(x: Seq<char>, rest: Seq<char>) -> bool {
    let n = run_len(x, CharClass::Space) as int;
    n == x.len() || (is_comment(x.skip(n)) && ends_comment(rest))
}

/// What fills the room between two tokens starts with a space or with `#`,
/// holds no line end, is passed over in front of what follows it, and still
/// fills that room when a space at its front is taken away.
proof fn lemma_fills(x: Seq<char>, rest: Seq<char>)
    requires
        fills(x, rest),
    ensures
        x.len() > 0 ==> x[0] == ' ' || x[0] == '#',
        x.len() > 0 && x[0] == ' ' ==> fills(x.drop_first(), rest),
        forall|i: int| 0 <= i < x.len() ==> CharClass::CommentPart.holds(#[trigger] x[i]),
        step(x + rest) == step(rest),
        tokens(x + rest) == tokens(rest),
        first_error(x + rest) == first_error(rest),
{
    let n = run_len(x, CharClass::Space) as int;
    lemma_run_len(x, CharClass::Space);
    let spaces = x.take(n);
    let comment = x.skip(n);
    assert(is_blank(spaces)) by {
        assert forall|i: int| 0 <= i < spaces.len() implies #[trigger] spaces[i] == ' ' by {
            assert(CharClass::Space.holds(x[i]));
        }
    }
    assert forall|i: int| 0 <= i < x.len() implies CharClass::CommentPart.holds(
        #[trigger] x[i],
    ) by {
        if i < n {
            assert(CharClass::Space.holds(x[i]));
        } else if i > n {
            assert(x[i] == comment[i - n]);
        }
    }
    assert(x + rest == spaces + (comment + rest));
    lemma_leading_spaces_are_skipped(spaces, comment + rest);
    if n == x.len() {
        assert(comment + rest == rest);
    } else {
        lemma_comment_is_skipped(comment, rest);
    }
    if x.len() > 0 && x[0] == ' ' {
        let y = x.drop_first();
        assert forall|i: int| 0 <= i < n - 1 implies CharClass::Space.holds(#[trigger] y[i]) by {
            assert(y[i] == x[i + 1]);
        }
        if n < x.len() {
            assert(y[n - 1] == x[n]);
        }
        lemma_run_len_is(y, CharClass::Space, (n - 1) as nat);
        assert(y.skip(n - 1) == comment);
    }
}

/// Where nothing but spaces and comments is left, spaces and a comment at
/// the end add nothing.
proof fn lemma_filler_after_the_end(s: Seq<char>, x: Seq<char>)
    requires
        fills(x, Seq::<char>::empty()),
        skip_ignored(s).len() == 0,
    ensures
        step(s + x).item is None,
    decreases s.len(),
{
    let whole = s + x;
    let a = run_len(s, CharClass::Space);
    lemma_run_len(s, CharClass::Space);
    lemma_fills(x, Seq::<char>::empty());
    let t = s.skip(a as int);
    if t.len() == 0 {
        assert(is_blank(s)) by {
            assert forall|i: int| 0 <= i < s.len() implies #[trigger] s[i] == ' ' by {
                assert(CharClass::Space.holds(s[i]));
            }
        }
        lemma_leading_spaces_are_skipped(s, x);
        assert(x + Seq::<char>::empty() == x);
    } else {
        assert(t[0] == '#');
        assert forall|i: int| 0 <= i < a implies CharClass::Space.holds(#[trigger] whole[i]) by {
            assert(whole[i] == s[i]);
        }
        assert(whole[a as int] == s[a as int]);
        lemma_run_len_is(whole, CharClass::Space, a);
        let t2 = whole.skip(a as int);
        assert(t2 == t + x);
        let body = t.drop_first();
        let body2 = t2.drop_first();
        assert(body2 == body + x);
        let n = run_len(body, CharClass::CommentPart);
        lemma_run_len(body, CharClass::CommentPart);
        if n < body.len() {
            assert forall|i: int| 0 <= i < n implies CharClass::CommentPart.holds(
                #[trigger] body2[i],
            ) by {
                assert(body2[i] == body[i]);
            }
            assert(body2[n as int] == body[n as int]);
            lemma_run_len_is(body2, CharClass::CommentPart, n);
            assert(body2.skip(n as int) == body.skip(n as int) + x);
            lemma_filler_after_the_end(body.skip(n as int), x);
        } else {
            assert forall|i: int| 0 <= i < body2.len() implies CharClass::CommentPart.holds(
                #[trigger] body2[i],
            ) by {
                if i < body.len() {
                    assert(body2[i] == body[i]);
                } else {
                    assert(body2[i] == x[i - body.len()]);
                }
            }
            lemma_run_len_is(body2, CharClass::CommentPart, body2.len());
            assert(body2.skip(body2.len() as int) == Seq::<char>::empty());
            lemma_blank_text_has_no_tokens(Seq::<char>::empty());
        }
    }
}

/// A run that stops inside a text stops at the same place when something is
/// put there that starts with a character outside the class.
proof fn lemma_run_stops_at(r: Seq<char>, class: CharClass, x: Seq<char>)
    requires
        x.len() > 0,
        !class.holds(x[0]),
    ensures
        ({
            let n = run_len(r, class) as int;
            let filled = r.take(n) + x + r.skip(n);
            &&& run_len(filled, class) == n
            &&& filled.take(n) == r.take(n)
            &&& filled.skip(n) == x + r.skip(n)
        }),
{
    let n = run_len(r, class) as int;
    let filled = r.take(n) + x + r.skip(n);
    lemma_run_len(r, class);
    assert forall|i: int| 0 <= i < n implies class.holds(#[trigger] filled[i]) by {
        assert(filled[i] == r[i]);
    }
    assert(filled[n] == x[0]);
    lemma_run_len_is(filled, class, n as nat);
    assert(filled.take(n) == r.take(n));
    assert(filled.skip(n) == x + r.skip(n));
}

/// The law of what stands behind an item, for a text that starts with the
/// item's first character `c`.
proof fn lemma_filler_after_a_token(c: char, r: Seq<char>, x: Seq<char>)
    requires
        x.len() > 0,
        fills(x, token_at(c, r).rest),
        !(c == '"' && run_len(r, CharClass::StringPart) == r.len()),
        !(c == '\'' && r.len() == 0 && x[0] == '#'),
    ensures
        token_at(c, r).rest.len() <= r.len(),
        ({
            let m = r.len() - token_at(c, r).rest.len();
            let filled = r.take(m) + x + r.skip(m);
            &&& token_at(c, filled).item == token_at(c, r).item
            &&& tokens(token_at(c, filled).rest) == tokens(token_at(c, r).rest)
            &&& first_error(token_at(c, filled).rest) == first_error(token_at(c, r).rest)
        }),
{
    let rest = token_at(c, r).rest;
    lemma_run_len(r, CharClass::WordPart);
    lemma_run_len(r, CharClass::NumberPart);
    lemma_run_len(r, CharClass::StringPart);
    lemma_fills(x, rest);
    let m = r.len() - rest.len();
    let filled = r.take(m) + x + r.skip(m);
    let rest2 = token_at(c, filled).rest;
    if is_word_start(c) {
        lemma_run_stops_at(r, CharClass::WordPart, x);
        assert(rest2 == x + rest);
    } else if c == '\'' {
        if r.len() > 0 {
            assert(filled[0] == r[0]);
            assert(rest2 == x + rest);
        } else {
            assert(filled == x);
            assert(rest2 == x.drop_first());
            lemma_fills(rest2, rest);
            assert(rest2 + rest == rest2);
        }
    } else if is_number_part(c) {
        lemma_run_stops_at(r, CharClass::NumberPart, x);
        assert(rest2 == x + rest);
    } else if c == '"' {
        let n = run_len(r, CharClass::StringPart) as int;
        assert(m == n + 1);
        assert forall|i: int| 0 <= i < n implies CharClass::StringPart.holds(
            #[trigger] filled[i],
        ) by {
            assert(filled[i] == r[i]);
        }
        assert(filled[n] == r[n]);
        lemma_run_len_is(filled, CharClass::StringPart, n as nat);
        assert(filled.take(n) == r.take(n));
        assert(rest2 == x + rest);
    } else {
        assert(r.take(0) + x + r.skip(0) == x + r);
    }
}

/// The law of what stands behind an item, for the first item of a text.
proof fn lemma_filler_after_an_item(s: Seq<char>, x: Seq<char>)
    requires
        fills(x, step(s).rest),
        !opens_unclosed_string(s),
        x.len() > 0 && x[0] == '#' ==> !opens_last_apostrophe(s),
    ensures
        ({
            let k = s.len() - step(s).rest.len();
            let filled = s.take(k) + x + s.skip(k);
            &&& step(filled).item == step(s).item
            &&& tokens(filled) == tokens(s)
            &&& first_error(filled) == first_error(s)
        }),
{
    lemma_step_advances(s);
    lemma_skip_ignored_is_suffix(s);
    let k = s.len() - step(s).rest.len();
    let filled = s.take(k) + x + s.skip(k);
    let t = skip_ignored(s);
    if x.len() == 0 {
        assert(filled == s);
    } else if t.len() == 0 {
        assert(filled == s + x);
        lemma_filler_after_the_end(s, x);
    } else {
        let j = s.len() - t.len();
        let c = t[0];
        let r = t.drop_first();
        lemma_filler_after_a_token(c, r, x);
        let m = r.len() - token_at(c, r).rest.len();
        assert(k == j + 1 + m);
        assert(filled.take(j + 1) == s.take(j + 1));
        lemma_skip_ignored_looks_no_further(s, filled);
        let t2 = filled.skip(j);
        assert(t2[0] == filled[j]);
        assert(t2.drop_first() == r.take(m) + x + r.skip(m));
    }
}

/// Steps only shorten a text, and one step or more shortens a text that is
/// not empty.
proof fn lemma_rest_after_shrinks(s: Seq<char>, n: nat)
    ensures
        rest_after(s, n).len() <= s.len(),
        n > 0 && s.len() > 0 ==> rest_after(s, n).len() < s.len(),
    decreases n,
{
    if n > 0 {
        lemma_step_advances(s);
        lemma_rest_after_shrinks(step(s).rest, (n - 1) as nat);
    }
}

/// The law of what stands behind an item, for any item of a text: the first
/// or a later one.
proof fn lemma_filler_between_tokens(s: Seq<char>, n: nat, x: Seq<char>)
    requires
        fills(x, rest_after(s, n + 1)),
        forall|j: nat| j <= n ==> !opens_unclosed_string(#[trigger] rest_after(s, j)),
        x.len() > 0 && x[0] == '#' ==> forall|j: nat|
            j <= n ==> !opens_last_apostrophe(#[trigger] rest_after(s, j)),
    ensures
        rest_after(s, n + 1).len() <= s.len(),
        ({
            let b = s.len() - rest_after(s, n + 1).len();
            let filled = s.take(b) + x + s.skip(b);
            &&& tokens(filled) == tokens(s)
            &&& first_error(filled) == first_error(s)
        }),
    decreases n,
{
    lemma_step_advances(s);
    lemma_rest_after_shrinks(s, n + 1);
    let rest = step(s).rest;
    let k = s.len() - rest.len();
    let b = s.len() - rest_after(s, n + 1).len();
    let filled = s.take(b) + x + s.skip(b);
    assert(rest_after(s, 0) == s);
    assert(rest_after(s, 1) == rest_after(rest, 0));
    if n == 0 || rest.len() == 0 {
        lemma_rest_after_shrinks(rest, n);
        assert(b == k);
        lemma_filler_after_an_item(s, x);
    } else {
        let inner = (n - 1) as nat;
        assert forall|j: nat| j <= inner implies !opens_unclosed_string(
            #[trigger] rest_after(rest, j),
        ) by {
            assert(rest_after(rest, j) == rest_after(s, j + 1));
        }
        if x.len() > 0 && x[0] == '#' {
            assert forall|j: nat| j <= inner implies !opens_last_apostrophe(
                #[trigger] rest_after(rest, j),
            ) by {
                assert(rest_after(rest, j) == rest_after(s, j + 1));
            }
        }
        lemma_filler_between_tokens(rest, inner, x);
        lemma_rest_after_shrinks(rest, n);
        let b_rest = rest.len() - rest_after(rest, n).len();
        let filled_rest = rest.take(b_rest) + x + rest.skip(b_rest);
        assert(b == k + b_rest);
        assert(filled.take(k + 1) == s.take(k + 1));
        lemma_step_looks_one_ahead(s, filled);
        assert(filled.skip(k) == filled_rest);
    }
}

/// Spaces between two tokens never change the tokens. Put where a step on
/// the text stops, be it the first step or a later one, they leave the text
/// with the same tokens and the same error.
///
/// This holds unless one of the steps up to that one reads a string literal
/// without its closing double quote: such a literal runs to the end of the
/// text, and spaces put there join it.
pub proof fn lemma_spaces_between_tokens_change_nothing(s: Seq<char>, n: nat, spaces: Seq<char>)
    requires
        is_blank(spaces),
        forall|j: nat| j <= n ==> !opens_unclosed_string(#[trigger] rest_after(s, j)),
    ensures
        rest_after(s, n + 1).len() <= s.len(),
        ({
            let b = s.len() - rest_after(s, n + 1).len();
            let spaced = s.take(b) + spaces + s.skip(b);
            &&& tokens(spaced) == tokens(s)
            &&& first_error(spaced) == first_error(s)
        }),
{
    lemma_run_len_is(spaces, CharClass::Space, spaces.len());
    lemma_filler_between_tokens(s, n, spaces);
}

/// A comment between two tokens never changes the tokens: what stands in
/// front of it and behind it is read as if the comment were not there. Put
/// where a step on the text stops, be it the first step or a later one, and
/// in front of the end of a line or of the text, a comment leaves the text
/// with the same tokens and the same error, with spaces in front of it or
/// without.
///
/// This holds unless one of the steps up to that one reads a string literal
/// without its closing double quote, which the comment would join, or, where
/// no space stands in front of the comment, an apostrophe at the very end of
/// the text, which would take the `#` along.
pub proof fn lemma_comment_between_tokens_changes_nothing(
    s: Seq<char>,
    n: nat,
    spaces: Seq<char>,
    comment: Seq<char>,
)
    requires
        is_blank(spaces),
        is_comment(comment),
        ends_comment(rest_after(s, n + 1)),
        forall|j: nat| j <= n ==> !opens_unclosed_string(#[trigger] rest_after(s, j)),
        spaces.len() == 0 ==> forall|j: nat|
            j <= n ==> !opens_last_apostrophe(#[trigger] rest_after(s, j)),
    ensures
        rest_after(s, n + 1).len() <= s.len(),
        ({
            let b = s.len() - rest_after(s, n + 1).len();
            let commented = s.take(b) + spaces + comment + s.skip(b);
            &&& tokens(commented) == tokens(s)
            &&& first_error(commented) == first_error(s)
        }),
{
    let x = spaces + comment;
    let b = s.len() - rest_after(s, n + 1).len();
    assert forall|i: int| 0 <= i < spaces.len() implies CharClass::Space.holds(#[trigger] x[i]) by {
        assert(x[i] == spaces[i]);
    }
    assert(x[spaces.len() as int] == comment[0]);
    lemma_run_len_is(x, CharClass::Space, spaces.len());
    assert(x.skip(spaces.len() as int) == comment);
    if spaces.len() > 0 {
        assert(x[0] == spaces[0]);
    }
    lemma_filler_between_tokens(s, n, x);
    assert(s.take(b) + spaces + comment + s.skip(b) == s.take(b) + x + s.skip(b));
}

} // verus!
