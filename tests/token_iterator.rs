use syntax_tokens::{Lexeme, Position, Syntaxes, Token, TokenIterator};
use syntect::parsing::Scope;

fn collect_tokens<'a>(mut iterator: TokenIterator<'a>) -> Vec<Token<'a>> {
    let mut tokens = Vec::new();
    while let Some(token) = iterator.next() {
        tokens.push(token);
    }
    tokens
}

fn tokens_of<'a>(data: &'a str, syntaxes: &'a Syntaxes) -> Vec<Token<'a>> {
    collect_tokens(TokenIterator::new(data, syntaxes, "rs").unwrap())
}

fn rebuild(tokens: &[Token]) -> String {
    let mut text = String::new();
    for token in tokens {
        match token {
            Token::Lexeme(lexeme) => text.push_str(lexeme.value),
            Token::Newline => text.push('\n'),
        }
    }
    text
}

// The Rust grammar bundled with syntect 5 names three of these scopes
// differently from older releases: `punctuation.section.block.begin.rust`
// and `punctuation.section.block.end.rust` for the braces, and
// `variable.other.member.rust` for the field name.
#[test]
fn token_iterator_returns_correct_tokens() {
    let syntaxes = Syntaxes::load_defaults();
    let iterator = TokenIterator::new("struct Buffer {\n  data: String\n}garbage\n\n", &syntaxes, "rs").unwrap();
    let expected_tokens = vec![
        Token::Lexeme(Lexeme{
            value: "struct",
            scope: Some(Scope::new("storage.type.struct.rust").unwrap()),
            position: Position{ line: 0, offset: 0 }
        }),
        Token::Lexeme(Lexeme{
            value: " ",
            scope: Some(Scope::new("meta.struct.rust").unwrap()),
            position: Position{ line: 0, offset: 6 }
        }),
        Token::Lexeme(Lexeme{
            value: "Buffer",
            scope: Some(Scope::new("entity.name.struct.rust").unwrap()),
            position: Position{ line: 0, offset: 7 }
        }),
        Token::Lexeme(Lexeme{
            value: " ",
            scope: Some(Scope::new("meta.struct.rust").unwrap()),
            position: Position{ line: 0, offset: 13 }
        }),
        Token::Lexeme(Lexeme{
            value: "{",
            scope: Some(Scope::new("punctuation.section.block.begin.rust").unwrap()),
            position: Position{ line: 0, offset: 14 }
        }),
        Token::Newline,
        Token::Lexeme(Lexeme{
            value: "  ",
            scope: Some(Scope::new("meta.block.rust").unwrap()),
            position: Position{ line: 1, offset: 0 }
        }),
        Token::Lexeme(Lexeme{
            value: "data",
            scope: Some(Scope::new("variable.other.member.rust").unwrap()),
            position: Position{ line: 1, offset: 2 }
        }),
        Token::Lexeme(Lexeme{
            value: ":",
            scope: Some(Scope::new("punctuation.separator.rust").unwrap()),
            position: Position{ line: 1, offset: 6 }
        }),
        Token::Lexeme(Lexeme{
            value: " String",
            scope: Some(Scope::new("meta.block.rust").unwrap()),
            position: Position{ line: 1, offset: 7 }
        }),
        Token::Newline,
        Token::Lexeme(Lexeme{
            value: "}",
            scope: Some(Scope::new("punctuation.section.block.end.rust").unwrap()),
            position: Position{ line: 2, offset: 0 }
        }),
        Token::Lexeme(Lexeme{
            value: "garbage",
            scope: Some(Scope::new("source.rust").unwrap()),
            position: Position{ line: 2, offset: 1 }
        }),
        Token::Newline,
        Token::Newline
    ];
    let actual_tokens: Vec<Token> = collect_tokens(iterator);
    assert_eq!(expected_tokens, actual_tokens);
}

#[test]
fn token_iterator_handles_content_without_trailing_newline() {
    let syntaxes = Syntaxes::load_defaults();
    let iterator = TokenIterator::new("struct", &syntaxes, "rs").unwrap();
    let expected_tokens = vec![
        Token::Lexeme(Lexeme{
            value: "struct",
            scope: Some(Scope::new("storage.type.struct.rust").unwrap()),
            position: Position{ line: 0, offset: 0 }
        })
    ];
    let actual_tokens: Vec<Token> = collect_tokens(iterator);
    for (index, token) in expected_tokens.into_iter().enumerate() {
        assert_eq!(token, actual_tokens[index]);
    }
}

#[test]
fn struct_declaration_scenario() {
    let syntaxes = Syntaxes::load_defaults();
    let tokens = tokens_of("struct Foo {\n}\n", &syntaxes);
    let storage = Scope::new("storage.type").unwrap();
    let entity = Scope::new("entity.name").unwrap();
    match tokens[0] {
        Token::Lexeme(l) => {
            assert_eq!(l.value, "struct");
            assert!(storage.is_prefix_of(l.scope.unwrap()));
            assert_eq!(l.position, Position { line: 0, offset: 0 });
        }
        Token::Newline => panic!("expected a lexeme"),
    }
    match tokens[1] {
        Token::Lexeme(l) => {
            assert_eq!(l.value, " ");
            assert_eq!(l.position, Position { line: 0, offset: 6 });
        }
        Token::Newline => panic!("expected a lexeme"),
    }
    match tokens[2] {
        Token::Lexeme(l) => {
            assert_eq!(l.value, "Foo");
            assert!(entity.is_prefix_of(l.scope.unwrap()));
            assert_eq!(l.position, Position { line: 0, offset: 7 });
        }
        Token::Newline => panic!("expected a lexeme"),
    }
    let n = tokens.len();
    assert_eq!(tokens[n - 1], Token::Newline);
    assert_eq!(tokens[n - 3], Token::Newline);
    match tokens[n - 2] {
        Token::Lexeme(l) => {
            assert_eq!(l.value, "}");
            assert_eq!(l.position, Position { line: 1, offset: 0 });
        }
        Token::Newline => panic!("expected a lexeme"),
    }
}

#[test]
fn single_word_without_newline_yields_one_lexeme() {
    let syntaxes = Syntaxes::load_defaults();
    let tokens = tokens_of("struct", &syntaxes);
    assert_eq!(tokens.len(), 1);
    assert!(matches!(tokens[0], Token::Lexeme(l) if l.value == "struct"));
}

#[test]
fn empty_text_yields_no_tokens() {
    let syntaxes = Syntaxes::load_defaults();
    assert!(tokens_of("", &syntaxes).is_empty());
}

#[test]
fn exhausted_stream_keeps_returning_none() {
    let syntaxes = Syntaxes::load_defaults();
    let mut iterator = TokenIterator::new("fn main() {}\n", &syntaxes, "rs").unwrap();
    while iterator.next().is_some() {}
    for _ in 0..5 {
        assert!(iterator.next().is_none());
    }
}

#[test]
fn tokens_rebuild_the_text() {
    let syntaxes = Syntaxes::load_defaults();
    let texts = [
        "",
        "\n",
        "\n\n",
        "struct Buffer {\n  data: String\n}garbage\n\n",
        "// a comment\nfn main() { let s = \"héllo ✓\"; }\n",
        "let x = 1;\r\nlet y = 2;",
    ];
    for text in texts.iter() {
        let tokens = tokens_of(text, &syntaxes);
        assert_eq!(rebuild(&tokens), *text);
    }
}

#[test]
fn one_newline_token_per_line_break() {
    let syntaxes = Syntaxes::load_defaults();
    let tokens = tokens_of("a\n\nb\nc", &syntaxes);
    let newlines = tokens.iter().filter(|t| **t == Token::Newline).count();
    assert_eq!(newlines, 3);
    assert!(matches!(tokens[0], Token::Lexeme(_)));
}

#[test]
fn positions_increase_through_the_stream() {
    let syntaxes = Syntaxes::load_defaults();
    let tokens = tokens_of("struct Buffer {\n  data: String\n}garbage\n\n", &syntaxes);
    let mut previous: Option<Position> = None;
    for token in tokens.iter() {
        if let Token::Lexeme(l) = token {
            assert!(!l.value.is_empty());
            if let Some(p) = previous {
                assert!((p.line, p.offset) < (l.position.line, l.position.offset));
            }
            previous = Some(l.position);
        }
    }
}

#[test]
fn unknown_extension_gives_no_stream() {
    let syntaxes = Syntaxes::load_defaults();
    assert!(TokenIterator::new("struct", &syntaxes, "no-such-extension").is_none());
}

#[test]
fn lexeme_line_is_number_of_newlines_before_it() {
    let syntaxes = Syntaxes::load_defaults();
    let tokens = tokens_of("struct A;\n\n// c\nfn f() {}\n", &syntaxes);
    let mut newlines = 0;
    for token in tokens.iter() {
        match token {
            Token::Newline => newlines += 1,
            Token::Lexeme(l) => assert_eq!(l.position.line, newlines),
        }
    }
    assert_eq!(newlines, 4);
}
