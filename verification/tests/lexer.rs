use rkaley::lexer::{LexError, Lexer, Token};

/// The value of a number token.
fn value(token: &Token) -> f64 {
    match token {
        Token::Number(text) => text.parse().expect("Can't parse number"),
        other => panic!("not a number: {:?}", other),
    }
}

fn identifier(text: &str) -> Token {
    Token::Identifier(String::from(text))
}

fn number(text: &str) -> Token {
    Token::Number(String::from(text))
}

fn string(text: &str) -> Token {
    Token::String(String::from(text))
}

fn malformed(text: &str) -> LexError {
    LexError::MalformedNumber(String::from(text))
}

fn all(source: &str) -> Vec<Token> {
    Lexer::new(source).collect().unwrap()
}

#[test]
fn test_simple_tokens_and_value() {
    let mut lexer = Lexer::new("1 + 1 - foo");
    assert_eq!(value(&lexer.next().unwrap().unwrap()), 1.0);
    assert_eq!(lexer.next().unwrap(), Ok(Token::UnknownChar('+')));
    assert_eq!(value(&lexer.next().unwrap().unwrap()), 1.0);
    assert_eq!(lexer.next().unwrap(), Ok(Token::UnknownChar('-')));
    assert_eq!(lexer.next().unwrap(), Ok(Token::Identifier(String::from("foo"))));
    assert_eq!(lexer.next(), None);
}

#[test]
fn test_simple_tokens_and_value_no_whitespace() {
    let mut lexer = Lexer::new("1+1-foo");
    assert_eq!(value(&lexer.next().unwrap().unwrap()), 1.0);
    assert_eq!(lexer.next().unwrap(), Ok(Token::UnknownChar('+')));
    assert_eq!(value(&lexer.next().unwrap().unwrap()), 1.0);
    assert_eq!(lexer.next().unwrap(), Ok(Token::UnknownChar('-')));
    assert_eq!(lexer.next().unwrap(), Ok(Token::Identifier(String::from("foo"))));
    assert_eq!(lexer.next(), None);
}

#[test]
fn test_comments() {
    let code = "# This is a comment 1+1
        1 + 2 # <- is code
        # this is not";
    let mut lexer = Lexer::new(code);
    assert_eq!(lexer.next(), Some(Ok(Token::EndLine)));
    let one = lexer.next().unwrap().unwrap();
    assert_eq!(value(&one), 1.0);
    assert_eq!(lexer.next(), Some(Ok(Token::UnknownChar('+'))));
    let two = lexer.next().unwrap().unwrap();
    assert_eq!(value(&two), 2.0);
    assert_eq!(lexer.next(), Some(Ok(Token::EndLine)));
    assert_eq!(lexer.next(), None);
}

#[test]
fn blank_source_holds_no_token() {
    assert_eq!(Lexer::new("").next(), None);
    assert_eq!(Lexer::new(" ").next(), None);
    assert_eq!(Lexer::new("      ").next(), None);
    assert_eq!(all("    "), vec![]);
}

#[test]
fn spaces_between_tokens_do_not_count() {
    assert_eq!(all("1+1-foo"), all("1 + 1 - foo"));
    assert_eq!(all("1+1-foo"), all("   1   +1  -    foo   "));
    assert_eq!(
        all("1 + 1 - foo"),
        vec![
            number("1"),
            Token::UnknownChar('+'),
            number("1"),
            Token::UnknownChar('-'),
            identifier("foo"),
        ]
    );
    assert_eq!(all("game's width=500"), all("game 's   width  =  500 "));
}

#[test]
fn spaces_split_words_and_numbers() {
    assert_eq!(all("ab"), vec![identifier("ab")]);
    assert_eq!(all("a b"), vec![identifier("a"), identifier("b")]);
    assert_eq!(all("12"), vec![number("12")]);
    assert_eq!(all("1 2"), vec![number("1"), number("2")]);
}

#[test]
fn spaces_join_an_unclosed_string() {
    assert_eq!(all("\"abc"), vec![string("abc")]);
    assert_eq!(all("\"abc  "), vec![string("abc  ")]);
}

#[test]
fn comment_yields_no_token() {
    assert_eq!(all("# nothing here"), vec![]);
    assert_eq!(all("#"), vec![]);
    assert_eq!(all("   # nothing here"), vec![]);
    assert_eq!(all("# one\n# two\n"), vec![Token::EndLine, Token::EndLine]);
    assert_eq!(all("# create in 1.2.3 \"abc"), vec![]);
}

#[test]
fn text_around_a_comment_is_read_as_without_it() {
    assert_eq!(all("foo # bar\nbaz"), all("foo \nbaz"));
    assert_eq!(all("foo# bar\nbaz"), all("foo\nbaz"));
    assert_eq!(all("foo # bar\nbaz"), vec![identifier("foo"), Token::EndLine, identifier("baz")]);
    assert_eq!(all("1 # 2"), vec![number("1")]);
    assert_eq!(all("a = 1 # b = 2\nc = 3"), all("a = 1\nc = 3"));
}

#[test]
fn comment_ends_at_carriage_return() {
    assert_eq!(
        all("# note\r\nfoo"),
        vec![Token::UnknownChar('\r'), Token::EndLine, identifier("foo")]
    );
    assert_eq!(all("#a\rb"), vec![Token::UnknownChar('\r'), identifier("b")]);
}

#[test]
fn keywords_are_whole_words() {
    assert_eq!(all("create"), vec![Token::Define]);
    assert_eq!(all("creates"), vec![identifier("creates")]);
    assert_eq!(all("in"), vec![Token::Block]);
    assert_eq!(all("inside"), vec![identifier("inside")]);
    assert_eq!(all("extern"), vec![Token::Extern]);
    assert_eq!(all("external"), vec![identifier("external")]);
    assert_eq!(all("i"), vec![identifier("i")]);
    assert_eq!(all("creat"), vec![identifier("creat")]);
    assert_eq!(all("Create"), vec![identifier("Create")]);
    assert_eq!(all("IN"), vec![identifier("IN")]);
    assert_eq!(all("in1"), vec![identifier("in1")]);
    assert_eq!(all("create in extern"), vec![Token::Define, Token::Block, Token::Extern]);
}

#[test]
fn words_go_on_with_letters_and_digits() {
    assert_eq!(all("a1b2"), vec![identifier("a1b2")]);
    assert_eq!(all("x_y"), vec![identifier("x"), Token::UnknownChar('_'), identifier("y")]);
    assert_eq!(all("1a"), vec![number("1"), identifier("a")]);
    assert_eq!(all("a.5b"), vec![identifier("a"), number(".5"), identifier("b")]);
}

#[test]
fn words_may_hold_letters_beyond_ascii() {
    assert_eq!(all("h\u{e9}llo"), vec![identifier("h\u{e9}llo")]);
    assert_eq!(all("\u{4eac}\u{90fd} in"), vec![identifier("\u{4eac}\u{90fd}"), Token::Block]);
    assert_eq!(all("x\u{b2}"), vec![identifier("x\u{b2}")]);
    assert_eq!(all("\u{b2}x"), vec![Token::UnknownChar('\u{b2}'), identifier("x")]);
    assert_eq!(all("\u{1f49d}"), vec![Token::UnknownChar('\u{1f49d}')]);
    assert_eq!(all("\u{663}"), vec![Token::UnknownChar('\u{663}')]);
    assert_eq!(all("a\u{663}"), vec![identifier("a\u{663}")]);
}

#[test]
fn possessive_is_apostrophe_and_s() {
    assert_eq!(all("'s"), vec![Token::Having]);
    assert_eq!(all("game's"), vec![identifier("game"), Token::Having]);
    let mut lexer = Lexer::new("'x");
    assert_eq!(lexer.next(), Some(Ok(Token::UnknownChar('\''))));
    assert_eq!(lexer.next(), None);
}

#[test]
fn apostrophe_takes_the_next_character_along() {
    assert_eq!(all("'xy"), vec![Token::UnknownChar('\''), identifier("y")]);
    assert_eq!(all("' s"), vec![Token::UnknownChar('\''), identifier("s")]);
    assert_eq!(all("'\ns"), vec![Token::UnknownChar('\''), identifier("s")]);
    assert_eq!(all("'"), vec![Token::UnknownChar('\'')]);
    assert_eq!(all("''s"), vec![Token::UnknownChar('\''), identifier("s")]);
    assert_eq!(all("'S"), vec![Token::UnknownChar('\'')]);
    assert_eq!(all("'ss"), vec![Token::Having, identifier("s")]);
}

#[test]
fn numbers_keep_their_text() {
    let one = Lexer::new("1").next().unwrap().unwrap();
    assert_eq!(one, number("1"));
    assert_eq!(value(&one), 1.0);
    let half = Lexer::new(".5").next().unwrap().unwrap();
    assert_eq!(half, number(".5"));
    assert_eq!(value(&half), 0.5);
    let whole = Lexer::new("500.").next().unwrap().unwrap();
    assert_eq!(whole, number("500."));
    assert_eq!(value(&whole), 500.0);
    let pi = Lexer::new("  3.25 ").next().unwrap().unwrap();
    assert_eq!(pi, number("3.25"));
    assert_eq!(value(&pi), 3.25);
    assert_eq!(all("007"), vec![number("007")]);
    assert_eq!(value(&number("007")), 7.0);
}

#[test]
fn malformed_number_is_an_error() {
    assert_eq!(Lexer::new("1.2.3").next(), Some(Err(malformed("1.2.3"))));
    assert_eq!(Lexer::new(".").next(), Some(Err(malformed("."))));
    assert_eq!(Lexer::new("..").next(), Some(Err(malformed(".."))));
    assert_eq!(Lexer::new("1..").next(), Some(Err(malformed("1.."))));
    assert_eq!(Lexer::new("  ..5 x").next(), Some(Err(malformed("..5"))));
    assert_eq!(Lexer::new("a.b").collect(), Err(malformed(".")));
}

#[test]
fn tokenizer_stands_behind_a_malformed_number() {
    let mut lexer = Lexer::new("x 1.2.3 y");
    assert_eq!(lexer.next(), Some(Ok(identifier("x"))));
    assert_eq!(lexer.next(), Some(Err(malformed("1.2.3"))));
    assert_eq!(lexer.next(), Some(Ok(identifier("y"))));
    assert_eq!(lexer.next(), None);
}

#[test]
fn collect_gives_the_first_error() {
    assert_eq!(Lexer::new("a 1.2.3 b .. c").collect(), Err(malformed("1.2.3")));
    assert_eq!(Lexer::new("a 1.2 b").collect(), Ok(vec![identifier("a"), number("1.2"), identifier("b")]));
    assert_eq!(Lexer::new("").collect(), Ok(vec![]));
}

#[test]
fn collect_takes_what_is_left() {
    let mut lexer = Lexer::new("a b c");
    assert_eq!(lexer.next(), Some(Ok(identifier("a"))));
    assert_eq!(lexer.collect(), Ok(vec![identifier("b"), identifier("c")]));
}

#[test]
fn numbers_are_what_the_float_parser_takes() {
    let texts = [
        "0", "1", "9", "10", "1.", ".1", "1.1", "123.456", "000", "0.0", ".", "..", "1..", "..1",
        "1.2.3", ".1.", "1.1.", "...", "99999999999999999999999999999999999999999999",
        "0.00000000000000000000000000000000000000000001",
    ];
    for text in texts {
        let parsed = text.parse::<f64>();
        match Lexer::new(text).next() {
            Some(Ok(Token::Number(literal))) => {
                assert_eq!(literal, text);
                assert_eq!(parsed, literal.parse::<f64>());
                assert!(parsed.is_ok());
            }
            Some(Err(LexError::MalformedNumber(run))) => {
                assert_eq!(run, text);
                assert!(parsed.is_err());
            }
            other => panic!("neither a number nor an error: {:?}", other),
        }
    }
}

#[test]
fn strings_stand_between_double_quotes() {
    assert_eq!(all("\"hello world!\""), vec![string("hello world!")]);
    assert_eq!(all("\"\""), vec![string("")]);
    assert_eq!(all("\"a\"\"b\""), vec![string("a"), string("b")]);
    assert_eq!(all("\"a\"b"), vec![string("a"), identifier("b")]);
    assert_eq!(all("print \"hello world!\""), vec![identifier("print"), string("hello world!")]);
}

#[test]
fn strings_keep_everything_up_to_the_quote() {
    assert_eq!(all("\"# no comment\""), vec![string("# no comment")]);
    assert_eq!(all("\"one\ntwo\""), vec![string("one\ntwo")]);
    assert_eq!(all("\"  create 1.2.3 's \""), vec![string("  create 1.2.3 's ")]);
}

#[test]
fn unclosed_string_runs_to_the_end() {
    let mut lexer = Lexer::new("\"abc");
    assert_eq!(lexer.next(), Some(Ok(string("abc"))));
    assert_eq!(lexer.next(), None);
    assert_eq!(all("\""), vec![string("")]);
    assert_eq!(all("x \"abc\ndef"), vec![identifier("x"), string("abc\ndef")]);
}

#[test]
fn end_is_stable() {
    let mut lexer = Lexer::new("foo  ");
    assert_eq!(lexer.next(), Some(Ok(identifier("foo"))));
    for _ in 0..5 {
        assert_eq!(lexer.next(), None);
    }
    let mut empty = Lexer::new("");
    for _ in 0..5 {
        assert_eq!(empty.next(), None);
    }
    let mut comment = Lexer::new("# the end");
    for _ in 0..5 {
        assert_eq!(comment.next(), None);
    }
}

#[test]
fn single_characters() {
    assert_eq!(all("="), vec![Token::Assigned]);
    assert_eq!(all("=="), vec![Token::Assigned, Token::Assigned]);
    assert_eq!(all("\n"), vec![Token::EndLine]);
    assert_eq!(all("\n\n"), vec![Token::EndLine, Token::EndLine]);
    assert_eq!(all("+"), vec![Token::UnknownChar('+')]);
    assert_eq!(all("(a)"), vec![Token::UnknownChar('('), identifier("a"), Token::UnknownChar(')')]);
}

#[test]
fn tab_and_carriage_return_are_no_spaces() {
    assert_eq!(all("\t"), vec![Token::UnknownChar('\t')]);
    assert_eq!(all("\r"), vec![Token::UnknownChar('\r')]);
    assert_eq!(all("a\tb"), vec![identifier("a"), Token::UnknownChar('\t'), identifier("b")]);
    assert_eq!(
        all("a\r\nb"),
        vec![identifier("a"), Token::UnknownChar('\r'), Token::EndLine, identifier("b")]
    );
    assert_eq!(all("\u{a0}"), vec![Token::UnknownChar('\u{a0}')]);
}

#[test]
fn example_program() {
    let source = "create game\ngame's width = 500\n";
    let tokens = all(source);
    assert_eq!(
        tokens,
        vec![
            Token::Define,
            identifier("game"),
            Token::EndLine,
            identifier("game"),
            Token::Having,
            identifier("width"),
            Token::Assigned,
            number("500"),
            Token::EndLine,
        ]
    );
    assert_eq!(value(&tokens[7]), 500.0);
    assert_eq!(all("create game\ngame's width = 500").len(), 8);
}

#[test]
fn sample_program() {
    let sample = "
    # print a hello world
    create game
    game's width = 500
    game's height = 600
    in game
      print \"hello world!\"
    ";
    assert_eq!(
        all(sample),
        vec![
            Token::EndLine,
            Token::EndLine,
            Token::Define,
            identifier("game"),
            Token::EndLine,
            identifier("game"),
            Token::Having,
            identifier("width"),
            Token::Assigned,
            number("500"),
            Token::EndLine,
            identifier("game"),
            Token::Having,
            identifier("height"),
            Token::Assigned,
            number("600"),
            Token::EndLine,
            Token::Block,
            identifier("game"),
            Token::EndLine,
            identifier("print"),
            string("hello world!"),
            Token::EndLine,
        ]
    );
}

#[test]
fn next_and_collect_agree() {
    let source = "create a\n a's b = 1.5 # c\n in a \"d\" 'e + ";
    let mut lexer = Lexer::new(source);
    let mut stepped = Vec::new();
    while let Some(item) = lexer.next() {
        stepped.push(item.unwrap());
    }
    assert_eq!(stepped, all(source));
    assert_eq!(
        stepped,
        vec![
            Token::Define,
            identifier("a"),
            Token::EndLine,
            identifier("a"),
            Token::Having,
            identifier("b"),
            Token::Assigned,
            number("1.5"),
            Token::EndLine,
            Token::Block,
            identifier("a"),
            string("d"),
            Token::UnknownChar('\''),
            Token::UnknownChar('+'),
        ]
    );
}

#[test]
fn many_comment_lines() {
    let mut source = String::new();
    for _ in 0..20000 {
        source.push_str("# line");
    }
    assert_eq!(all(&source), vec![]);
    let mut lines = String::new();
    for _ in 0..20000 {
        lines.push_str("  # line\n");
    }
    assert_eq!(all(&lines).len(), 20000);
}
