//! The tokenizer: a cursor over a source text that hands out one token per
//! call.

use vstd::prelude::*;
use crate::chars::{lemma_run_len, lemma_run_len_is, run_len, CharClass};
use crate::grammar::{
    first_error, lemma_step_advances, skip_ignored, step, token_at, tokens, LexErrorView,
    TokenView,
};
use crate::number::is_decimal;

verus! {

/// A token of the language.
#[derive(Debug, PartialEq)]
pub enum Token {
    /// The keyword `create`, which introduces a new named entity.
    Define,
    /// The possessive `'s`.
    Having,
    /// The assignment sign `=`.
    Assigned,
    /// The keyword `extern`, which marks a declaration from outside.
    Extern,
    /// The keyword `in`, which opens a block.
    Block,
    /// The end of a line: one token for each line feed.
    EndLine,
    /// A word that is no keyword, as it stands in the source.
    Identifier(String),
    /// A decimal number, as it stands in the source: digits with at most one
    /// point, and at least one digit.
    Number(String),
    /// What stands between the double quotes of a string literal.
    String(String),
    /// A character that starts no token.
    UnknownChar(char),
}

impl View for Token {
    type V = TokenView;

    open spec fn view(&self) -> TokenView {
        match self {
            Token::Define => TokenView::Define,
            Token::Having => TokenView::Having,
            Token::Assigned => TokenView::Assigned,
            Token::Extern => TokenView::Extern,
            Token::Block => TokenView::Block,
            Token::EndLine => TokenView::EndLine,
            Token::Identifier(text) => TokenView::Identifier(text@),
            Token::Number(text) => TokenView::Number(text@),
            Token::String(text) => TokenView::String(text@),
            Token::UnknownChar(c) => TokenView::UnknownChar(*c),
        }
    }
}

/// Why the tokenizer could not go on.
#[derive(Debug, PartialEq)]
pub enum LexError {
    /// A run of digits and points that is no decimal number: it has more than
    /// one point, or no digit. The run is carried along.
    MalformedNumber(String),
}

impl View for LexError {
    type V = LexErrorView;

    open spec fn view(&self) -> LexErrorView {
        match self {
            LexError::MalformedNumber(text) => LexErrorView::MalformedNumber(text@),
        }
    }
}

/// What the tokenizer yields in one call, as the grammar sees it.
pub open spec fn item_view(item: Option<Result<Token, LexError>>) -> Option<
    Result<TokenView, LexErrorView>,
> {
    match item {
        None => None,
        Some(Ok(token)) => Some(Ok(token@)),
        Some(Err(error)) => Some(Err(error@)),
    }
}

/// The tokens of a vector, as the grammar sees them.
pub open spec fn token_views(v: Seq<Token>) -> Seq<TokenView> {
    Seq::new(v.len(), |i: int| v[i]@)
}

/// A tokenizer over one source text. It moves forward only; its view is the
/// part of the source that it has not read yet.
#[derive(Debug)]
pub struct Lexer<'a> {
    /// The text that is read, borrowed for as long as the tokenizer lives.
    #[allow(dead_code)]
    source: &'a str,
    /// The characters of `source`.
    chars: Vec<char>,
    /// How many of them have been read.
    pos: usize,
}

impl<'a> View for Lexer<'a> {
    type V = Seq<char>;

    closed spec fn view(&self) -> Seq<char> {
        self.chars@.skip(self.pos as int)
    }
}

impl<'a> Lexer<'a> {
    #[verifier::type_invariant]
    spec fn wf(self) -> bool {
        &&& self.chars@ == self.source@
        &&& self.pos <= self.chars.len()
    }

    /// A tokenizer that stands at the start of `source`.
    pub fn new(source: &'a str) -> (lexer: Lexer<'a>)
        ensures
            lexer@ == source@,
    {
        let mut chars: Vec<char> = Vec::new();
        for c in it: source.chars()
            invariant
                it.seq() == source@,
                chars@ == source@.take(it.index() as int),
        {
            chars.push(c);
        }
        assert(chars@ == source@);
        Lexer { source, chars, pos: 0 }
    }

    /// Takes the next character, if one is left.
    fn bump(&mut self) -> (c: Option<char>)
        ensures
            old(self)@.len() == 0 ==> c is None && final(self)@ == old(self)@,
            old(self)@.len() > 0 ==> c == Some(old(self)@[0])
                && final(self)@ == old(self)@.drop_first(),
    {
        proof {
            use_type_invariant(&*self);
        }
        if self.pos < self.chars.len() {
            let c = self.chars[self.pos];
            self.pos = self.pos + 1;
            Some(c)
        } else {
            None
        }
    }

    /// Passes over the run of `class` that the rest of the source starts with.
    fn skip_run(&mut self, class: CharClass)
        ensures
            final(self)@ == old(self)@.skip(run_len(old(self)@, class) as int),
    {
        proof {
            use_type_invariant(&*self);
        }
        let start = self.pos;
        while self.pos < self.chars.len() && class.contains(self.chars[self.pos])
            invariant
                self.wf(),
                self.chars == old(self).chars,
                start == old(self).pos,
                start <= self.pos,
                forall|i: int| start <= i < self.pos ==> class.holds(#[trigger] self.chars[i]),
            decreases self.chars.len() - self.pos,
        {
            self.pos = self.pos + 1;
        }
        proof {
            let n = (self.pos - start) as nat;
            assert forall|i: int| 0 <= i < n implies class.holds(#[trigger] old(self)@[i]) by {
                assert(old(self)@[i] == self.chars[start + i]);
            }
            lemma_run_len_is(old(self)@, class, n);
            assert(self@ == old(self)@.skip(n as int));
        }
    }

    /// Reads the run of `class` that the rest of the source starts with, and
    /// appends it to `text`.
    fn read_run(&mut self, class: CharClass, text: &mut String)
        ensures
            final(self)@ == old(self)@.skip(run_len(old(self)@, class) as int),
            final(text)@ == old(text)@ + old(self)@.take(run_len(old(self)@, class) as int),
    {
        proof {
            use_type_invariant(&*self);
        }
        let start = self.pos;
        while self.pos < self.chars.len() && class.contains(self.chars[self.pos])
            invariant
                self.wf(),
                self.chars == old(self).chars,
                start == old(self).pos,
                start <= self.pos,
                forall|i: int| start <= i < self.pos ==> class.holds(#[trigger] self.chars[i]),
                text@ == old(text)@ + self.chars@.subrange(start as int, self.pos as int),
            decreases self.chars.len() - self.pos,
        {
            text.push(self.chars[self.pos]);
            self.pos = self.pos + 1;
            assert(self.chars@.subrange(start as int, self.pos as int)
                == self.chars@.subrange(start as int, self.pos - 1).push(self.chars[self.pos - 1]));
        }
        proof {
            let n = (self.pos - start) as nat;
            assert forall|i: int| 0 <= i < n implies class.holds(#[trigger] old(self)@[i]) by {
                assert(old(self)@[i] == self.chars[start + i]);
            }
            lemma_run_len_is(old(self)@, class, n);
            assert(self@ == old(self)@.skip(n as int));
            assert(old(self)@.take(n as int) == self.chars@.subrange(
                start as int,
                self.pos as int,
            ));
        }
    }

    /// The token that starts with the character `c`, which was taken last.
    /// A comment yields none: it is passed over, up to the end of its line.
    fn get_token(&mut self, c: char) -> (item: Option<Result<Token, LexError>>)
        ensures
            c == '#' ==> item is None && final(self)@ == old(self)@.skip(
                run_len(old(self)@, CharClass::CommentPart) as int,
            ),
            c != '#' ==> item is Some && item_view(item) == token_at(c, old(self)@).item
                && final(self)@ == token_at(c, old(self)@).rest,
    {
        if c.is_alphabetic() {
            let mut iden = String::new();
            iden.push(c);
            self.read_run(CharClass::WordPart, &mut iden);
            if iden.as_str().eq("create") {
                Some(Ok(Token::Define))
            } else if iden.as_str().eq("extern") {
                Some(Ok(Token::Extern))
            } else if iden.as_str().eq("in") {
                Some(Ok(Token::Block))
            } else {
                Some(Ok(Token::Identifier(iden)))
            }
        } else if c == '\'' {
            match self.bump() {
                Some('s') => Some(Ok(Token::Having)),
                _ => Some(Ok(Token::UnknownChar(c))),
            }
        } else if c.is_digit(10) || c == '.' {
            let mut num = String::new();
            num.push(c);
            self.read_run(CharClass::NumberPart, &mut num);
            if is_decimal(num.as_str()) {
                Some(Ok(Token::Number(num)))
            } else {
                Some(Err(LexError::MalformedNumber(num)))
            }
        } else if c == '"' {
            let mut body = String::new();
            self.read_run(CharClass::StringPart, &mut body);
            proof {
                lemma_run_len(old(self)@, CharClass::StringPart);
            }
            let _ = self.bump();
            Some(Ok(Token::String(body)))
        } else if c == '=' {
            Some(Ok(Token::Assigned))
        } else if c == '\n' {
            Some(Ok(Token::EndLine))
        } else if c == '#' {
            self.skip_run(CharClass::CommentPart);
            None
        } else {
            Some(Ok(Token::UnknownChar(c)))
        }
    }

    /// The next token of the source, or `None` once the source holds no
    /// further token. Spaces and comments are passed over on the way. A run of
    /// digits and points that is no decimal number comes back as an error, and
    /// the tokenizer then stands behind that run.
    pub fn next(&mut self) -> (item: Option<Result<Token, LexError>>)
        ensures
            item_view(item) == step(old(self)@).item,
            final(self)@ == step(old(self)@).rest,
            item is Some ==> final(self)@.len() < old(self)@.len(),
            item is None ==> final(self)@ == Seq::<char>::empty(),
    {
        loop
            invariant
                skip_ignored(self@) == skip_ignored(old(self)@),
            decreases self@.len(),
        {
            let ghost before = self@;
            self.skip_run(CharClass::Space);
            proof {
                lemma_run_len(before, CharClass::Space);
            }
            match self.bump() {
                None => {
                    return None;
                },
                Some(c) => {
                    proof {
                        lemma_run_len(self@, CharClass::CommentPart);
                    }
                    let item = self.get_token(c);
                    if item.is_some() {
                        proof {
                            lemma_step_advances(old(self)@);
                        }
                        return item;
                    }
                },
            }
        }
    }

    /// All the tokens that are left in the source, in order. If a malformed
    /// number stands among them, the first such number comes back as the
    /// error, and no token does.
    pub fn collect(self) -> (all: Result<Vec<Token>, LexError>)
        ensures
            match all {
                Ok(list) => first_error(self@) is None && token_views(list@) == tokens(self@),
                Err(error) => first_error(self@) == Some(error@),
            },
    {
        let mut lexer = self;
        let mut list: Vec<Token> = Vec::new();
        loop
            invariant
                tokens(self@) == token_views(list@) + tokens(lexer@),
                first_error(self@) == first_error(lexer@),
            decreases lexer@.len(),
        {
            match lexer.next() {
                None => {
                    return Ok(list);
                },
                Some(Ok(token)) => {
                    list.push(token);
                },
                Some(Err(error)) => {
                    return Err(error);
                },
            }
        }
    }
}

} // verus!
