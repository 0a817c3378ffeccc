use lox_scanner::scanner::{Error, Scanner};
use lox_scanner::token::{Token, Type};

#[test]
fn basics() {
    let input = "()\n\t// this is a comment\n(())(){} \r// grouping\n!*+-/=<> <= == // operators";

    let scanner = Scanner::parse(input);

    assert!(scanner.errors().is_empty());
    assert_eq!(scanner.source(), input);
    assert_eq!(scanner.lines(), 4);
    assert_eq!(
        scanner.tokens(),
        vec![
            Token::new(Type::LeftParent, 1),
            Token::new(Type::RightParent, 1),
            Token::new(Type::LeftParent, 3),
            Token::new(Type::LeftParent, 3),
            Token::new(Type::RightParent, 3),
            Token::new(Type::RightParent, 3),
            Token::new(Type::LeftParent, 3),
            Token::new(Type::RightParent, 3),
            Token::new(Type::LeftBrace, 3),
            Token::new(Type::RightBrace, 3),
            Token::new(Type::Bang, 4),
            Token::new(Type::Star, 4),
            Token::new(Type::Plus, 4),
            Token::new(Type::Minus, 4),
            Token::new(Type::Slash, 4),
            Token::new(Type::Equal, 4),
            Token::new(Type::Less, 4),
            Token::new(Type::Greater, 4),
            Token::new(Type::LessEqual, 4),
            Token::new(Type::EqualEqual, 4),
        ]
        .as_slice()
    );

    let scanner = Scanner::parse("\n~\n");
    assert!(scanner.tokens().is_empty());
    assert_eq!(scanner.lines(), 3);
    assert_eq!(
        scanner.errors(),
        vec![Error::InvalidCharacter {
            character: '~',
            line: 2,
            index: 1,
        }]
        .as_slice()
    );
}

#[test]
fn strings() {
    let scanner = Scanner::parse("\"\"");
    assert_eq!(
        scanner.tokens(),
        vec![Token::new(Type::String(""), 1)].as_slice()
    );
    assert_eq!(scanner.lines(), 1);

    let input = "\"hello world\"";
    let scanner = Scanner::parse(input);
    assert_eq!(
        scanner.tokens(),
        vec![Token::new(Type::String("hello world"), 1)].as_slice()
    );

    let input = "\"hello\n\nworld\"";
    let scanner = Scanner::parse(input);
    assert_eq!(
        scanner.tokens(),
        vec![Token::new(Type::String("hello\n\nworld"), 3)].as_slice()
    );
    assert_eq!(scanner.lines(), 3);

    let input = "\"asd\n\r\t";
    let scanner = Scanner::parse(input);
    assert!(scanner.tokens().is_empty());
    assert_eq!(scanner.errors(), vec![Error::UnterminatedLiteral].as_slice());
}

#[test]
fn numbers() {
    let scanner = Scanner::parse("1");
    assert_eq!(
        scanner.tokens(),
        vec![Token::new(Type::Number("1"), 1)].as_slice()
    );
    let scanner = Scanner::parse("1234");
    assert_eq!(
        scanner.tokens(),
        vec![Token::new(Type::Number("1234"), 1)].as_slice()
    );
    let scanner = Scanner::parse("1234.");
    assert_eq!(
        scanner.tokens(),
        vec![
            Token::new(Type::Number("1234"), 1),
            Token::new(Type::Dot, 1)
        ]
        .as_slice()
    );
    let scanner = Scanner::parse("1234.5678");
    assert_eq!(
        scanner.tokens(),
        vec![Token::new(Type::Number("1234.5678"), 1)].as_slice()
    );
    let scanner = Scanner::parse("12.34.56.78");
    assert_eq!(
        scanner.tokens(),
        vec![
            Token::new(Type::Number("12.34"), 1),
            Token::new(Type::Dot, 1),
            Token::new(Type::Number("56.78"), 1),
        ]
        .as_slice()
    );

    // The numeric lexemes parse to the machine numbers the spans denote.
    let scanner = Scanner::parse("12.34.56.78");
    let parsed: Vec<f32> = scanner
        .tokens()
        .iter()
        .filter_map(|t| match &t.typ {
            Type::Number(lexeme) => Some(lexeme.parse::<f32>().unwrap()),
            _ => None,
        })
        .collect();
    assert_eq!(parsed, vec![12.34f32, 56.78f32]);
}

#[test]
fn identifiers() {
    let scanner = Scanner::parse("a");
    assert_eq!(
        scanner.tokens(),
        vec![Token::new(Type::Identifier("a"), 1)].as_slice()
    );
    let scanner = Scanner::parse("and");
    assert_eq!(scanner.tokens(), vec![Token::new(Type::And, 1)].as_slice());
    let scanner = Scanner::parse("and;\n nil;\n a0123.sqrt();");
    assert_eq!(
        scanner.tokens(),
        vec![
            Token::new(Type::And, 1),
            Token::new(Type::Semicolon, 1),
            Token::new(Type::Nil, 2),
            Token::new(Type::Semicolon, 2),
            Token::new(Type::Identifier("a0123"), 3),
            Token::new(Type::Dot, 3),
            Token::new(Type::Identifier("sqrt"), 3),
            Token::new(Type::LeftParent, 3),
            Token::new(Type::RightParent, 3),
            Token::new(Type::Semicolon, 3),
        ]
        .as_slice()
    );
}

#[test]
fn empty_source() {
    let scanner = Scanner::parse("");
    assert!(scanner.tokens().is_empty());
    assert!(scanner.errors().is_empty());
    assert_eq!(scanner.lines(), 1);
    assert_eq!(scanner.source(), "");
}

#[test]
fn operators_scenario() {
    let scanner = Scanner::parse("()\n\t// c\n(())(){}\n!*+-/=<> <= ==");
    assert!(scanner.errors().is_empty());
    assert_eq!(scanner.lines(), 4);
    assert_eq!(
        scanner.tokens(),
        vec![
            Token::new(Type::LeftParent, 1),
            Token::new(Type::RightParent, 1),
            Token::new(Type::LeftParent, 3),
            Token::new(Type::LeftParent, 3),
            Token::new(Type::RightParent, 3),
            Token::new(Type::RightParent, 3),
            Token::new(Type::LeftParent, 3),
            Token::new(Type::RightParent, 3),
            Token::new(Type::LeftBrace, 3),
            Token::new(Type::RightBrace, 3),
            Token::new(Type::Bang, 4),
            Token::new(Type::Star, 4),
            Token::new(Type::Plus, 4),
            Token::new(Type::Minus, 4),
            Token::new(Type::Slash, 4),
            Token::new(Type::Equal, 4),
            Token::new(Type::Less, 4),
            Token::new(Type::Greater, 4),
            Token::new(Type::LessEqual, 4),
            Token::new(Type::EqualEqual, 4),
        ]
        .as_slice()
    );
}

#[test]
fn deterministic_scan() {
    let input = "var x = 12.5; // note\n\"two\nlines\" !=";
    let first = Scanner::parse(input);
    let second = Scanner::parse(input);
    assert_eq!(first.tokens(), second.tokens());
    assert_eq!(first.errors(), second.errors());
    assert_eq!(first.lines(), second.lines());
    assert_eq!(first.source(), second.source());
}

#[test]
fn line_count_counts_every_newline() {
    // Newlines in bare source, after a comment, and inside a string
    // literal all advance the count.
    let input = "a\n// c\n\"x\ny\"\nz";
    let newlines = input.chars().filter(|c| *c == '\n').count();
    assert_eq!(newlines, 4);
    let scanner = Scanner::parse(input);
    assert_eq!(scanner.lines(), 1 + newlines);

    // Also when an unterminated literal swallows the rest of the input.
    let scanner = Scanner::parse("\"a\nb\nc");
    assert_eq!(scanner.lines(), 3);
}

#[test]
fn token_lines_never_decrease() {
    let input = "( )\n{ \"a\nb\" }\nand nil 12.5\n!=";
    let scanner = Scanner::parse(input);
    let tokens = scanner.tokens();
    assert!(!tokens.is_empty());
    for pair in tokens.windows(2) {
        assert!(pair[0].line <= pair[1].line);
    }
}

#[test]
fn operator_round_trip() {
    let kinds = vec![
        Type::LeftParent,
        Type::RightParent,
        Type::LeftBrace,
        Type::RightBrace,
        Type::Comma,
        Type::Dot,
        Type::Minus,
        Type::Plus,
        Type::Semicolon,
        Type::Slash,
        Type::Star,
        Type::Bang,
        Type::BangEqual,
        Type::Equal,
        Type::EqualEqual,
        Type::Greater,
        Type::GreaterEqual,
        Type::Less,
        Type::LessEqual,
    ];
    let rendered = kinds
        .iter()
        .map(|k| k.render())
        .collect::<Vec<&str>>()
        .join(" ");
    let scanner = Scanner::parse(&rendered);
    assert!(scanner.errors().is_empty());
    let rescanned: Vec<Type> = scanner.tokens().iter().map(|t| t.typ.clone()).collect();
    assert_eq!(rescanned, kinds);
    for t in scanner.tokens() {
        assert_eq!(t.line, 1);
    }
}

#[test]
fn display_forms() {
    assert_eq!(Type::BangEqual.render(), "!=");
    assert_eq!(Type::LessEqual.render(), "<=");
    assert_eq!(Type::While.render(), "while");
    assert_eq!(Type::Identifier("a0123").render(), "a0123");
    assert_eq!(Type::String("hello world").render(), "hello world");
    assert_eq!(Type::Number("12.34").render(), "12.34");
}

#[test]
fn keyword_table_is_exact() {
    // Every reserved word maps to its keyword kind...
    let input = "and class else false fun for if nil or print return super this true var while";
    let scanner = Scanner::parse(input);
    assert_eq!(
        scanner.tokens(),
        vec![
            Token::new(Type::And, 1),
            Token::new(Type::Class, 1),
            Token::new(Type::Else, 1),
            Token::new(Type::False, 1),
            Token::new(Type::Fun, 1),
            Token::new(Type::For, 1),
            Token::new(Type::If, 1),
            Token::new(Type::Nil, 1),
            Token::new(Type::Or, 1),
            Token::new(Type::Print, 1),
            Token::new(Type::Return, 1),
            Token::new(Type::Super, 1),
            Token::new(Type::This, 1),
            Token::new(Type::True, 1),
            Token::new(Type::Var, 1),
            Token::new(Type::While, 1),
        ]
        .as_slice()
    );

    // ...and near misses stay identifiers: no partial or extended match.
    let scanner = Scanner::parse("andy an While");
    assert_eq!(
        scanner.tokens(),
        vec![
            Token::new(Type::Identifier("andy"), 1),
            Token::new(Type::Identifier("an"), 1),
            Token::new(Type::Identifier("While"), 1),
        ]
        .as_slice()
    );
}

#[test]
fn invalid_character_byte_index() {
    // The recorded index is a byte index: a two-byte character before the
    // offender moves it by two.
    let scanner = Scanner::parse("é~");
    assert_eq!(
        scanner.tokens(),
        vec![Token::new(Type::Identifier("é"), 1)].as_slice()
    );
    assert_eq!(
        scanner.errors(),
        vec![Error::InvalidCharacter {
            character: '~',
            line: 1,
            index: 2,
        }]
        .as_slice()
    );
}

#[test]
fn comment_without_newline_ends_scan() {
    let scanner = Scanner::parse("( // trailing comment");
    assert_eq!(
        scanner.tokens(),
        vec![Token::new(Type::LeftParent, 1)].as_slice()
    );
    assert!(scanner.errors().is_empty());
    assert_eq!(scanner.lines(), 1);
}

#[test]
fn slash_alone_is_division() {
    let scanner = Scanner::parse("1/2");
    assert_eq!(
        scanner.tokens(),
        vec![
            Token::new(Type::Number("1"), 1),
            Token::new(Type::Slash, 1),
            Token::new(Type::Number("2"), 1),
        ]
        .as_slice()
    );
}
