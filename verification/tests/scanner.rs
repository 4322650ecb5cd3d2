use tokenizer::lexer::Lexer;
use tokenizer::token::Token;

fn scan_all(input: &str) -> Vec<Token> {
    let mut lexer = Lexer::new(input);
    let mut tokens = Vec::new();
    loop {
        assert!(lexer.next_fits());
        let token = lexer.next_token();
        let done = token == Token::EOF;
        tokens.push(token);
        if done {
            return tokens;
        }
    }
}

fn ident(name: &str) -> Token {
    Token::Ident(String::from(name))
}

#[test]
fn test_next_token() {
    let expected_tokens = vec![
        Token::Assign,
        Token::Plus,
        Token::Lparen,
        Token::Rparen,
        Token::Lbrace,
        Token::Rbrace,
        Token::Comma,
        Token::Semicolon,
        Token::EOF,
    ];

    let input: &str = "=+(){},;";
    let mut lexer = Lexer::new(input);

    for expected_token in expected_tokens.iter() {
        assert_eq!(&lexer.next_token(), expected_token);
    }
}

#[test]
fn test_next_token_2() {
    let expected_tokens = vec![
        Token::Let,
        Token::Ident(String::from("five")),
        Token::Assign,
        Token::Int(5),
        Token::Semicolon,
        Token::Let,
        Token::Ident(String::from("ten")),
        Token::Assign,
        Token::Int(10),
        Token::Semicolon,
        Token::Let,
        Token::Ident(String::from("add")),
        Token::Assign,
        Token::Function,
        Token::Lparen,
        Token::Ident(String::from("x")),
        Token::Comma,
        Token::Ident(String::from("y")),
        Token::Rparen,
        Token::Lbrace,
        Token::Ident(String::from("x")),
        Token::Plus,
        Token::Ident(String::from("y")),
        Token::Semicolon,
        Token::Rbrace,
        Token::Semicolon,
        Token::Let,
        Token::Ident(String::from("result")),
        Token::Assign,
        Token::Ident(String::from("add")),
        Token::Lparen,
        Token::Ident(String::from("five")),
        Token::Comma,
        Token::Ident(String::from("ten")),
        Token::Rparen,
        Token::Semicolon,
        Token::Bang,
        Token::Minus,
        Token::Slash,
        Token::Asterisk,
        Token::Int(5),
        Token::Semicolon,
        Token::Int(5),
        Token::LowerThan,
        Token::Int(10),
        Token::GraterThan,
        Token::Int(5),
        Token::Semicolon,
        Token::If,
        Token::Lparen,
        Token::Int(5),
        Token::LowerThan,
        Token::Int(10),
        Token::Rparen,
        Token::Lbrace,
        Token::Return,
        Token::Bool(true),
        Token::Semicolon,
        Token::Rbrace,
        Token::Else,
        Token::Lbrace,
        Token::Return,
        Token::Bool(false),
        Token::Semicolon,
        Token::Rbrace,
        Token::Int(10),
        Token::Equal,
        Token::Int(10),
        Token::Semicolon,
        Token::Int(10),
        Token::NotEqual,
        Token::Int(9),
        Token::Semicolon,
        Token::EOF,
    ];

    let input = "
            let five = 5;
            let ten = 10;
            let add = fn(x, y) {
                x + y;
            };
            let result = add(five, ten);

            !-/*5;
            5 < 10 > 5;

            if (5 < 10) {
                return true;
            } else {
                return false;
            }

            10 == 10;
            10 != 9;
        ";
    let mut lexer = Lexer::new(input);

    for expected_token in expected_tokens.iter() {
        assert_eq!(&lexer.next_token(), expected_token);
    }
}

#[test]
fn punctuation_line() {
    assert_eq!(
        scan_all("=+(){},;"),
        vec![
            Token::Assign,
            Token::Plus,
            Token::Lparen,
            Token::Rparen,
            Token::Lbrace,
            Token::Rbrace,
            Token::Comma,
            Token::Semicolon,
            Token::EOF,
        ]
    );
}

#[test]
fn let_statement() {
    assert_eq!(
        scan_all("let five = 5;"),
        vec![Token::Let, ident("five"), Token::Assign, Token::Int(5), Token::Semicolon, Token::EOF]
    );
}

#[test]
fn comparisons() {
    assert_eq!(
        scan_all("10 == 10;"),
        vec![Token::Int(10), Token::Equal, Token::Int(10), Token::Semicolon, Token::EOF]
    );
    assert_eq!(
        scan_all("10 != 9;"),
        vec![Token::Int(10), Token::NotEqual, Token::Int(9), Token::Semicolon, Token::EOF]
    );
}

#[test]
fn prefix_operators() {
    assert_eq!(
        scan_all("!-/*5;"),
        vec![
            Token::Bang,
            Token::Minus,
            Token::Slash,
            Token::Asterisk,
            Token::Int(5),
            Token::Semicolon,
            Token::EOF,
        ]
    );
}

#[test]
fn angle_brackets() {
    assert_eq!(scan_all("<>"), vec![Token::LowerThan, Token::GraterThan, Token::EOF]);
}

#[test]
fn empty_input_is_at_its_end() {
    let mut lexer = Lexer::new("");
    assert_eq!(lexer.next_token(), Token::EOF);
    assert_eq!(lexer.next_token(), Token::EOF);
}

#[test]
fn whitespace_only_input_is_at_its_end() {
    assert_eq!(scan_all(" \t\r\n "), vec![Token::EOF]);
}

#[test]
fn end_repeats() {
    let mut lexer = Lexer::new("x;");
    assert_eq!(lexer.next_token(), ident("x"));
    assert_eq!(lexer.next_token(), Token::Semicolon);
    for _ in 0..10 {
        assert!(lexer.next_fits());
        assert_eq!(lexer.next_token(), Token::EOF);
    }
}

#[test]
fn every_input_byte_ends_in_eof() {
    let input = "a=1 @ != fn\t#";
    let tokens = scan_all(input);
    assert!(tokens.len() <= input.len() + 1);
    assert_eq!(tokens.last(), Some(&Token::EOF));
    assert_eq!(tokens.iter().filter(|t| **t == Token::EOF).count(), 1);
}

#[test]
fn whitespace_between_tokens_is_invisible() {
    let tight = scan_all("let x=5;if(x<10){return true;}");
    let loose = scan_all("  let\tx \n=\r\n 5 ;\n\nif ( x < 10 ) {\treturn   true ; }  ");
    assert_eq!(tight, loose);
    assert_eq!(tight.len(), 17);
}

#[test]
fn whitespace_separates_what_would_merge() {
    assert_eq!(scan_all("= ="), vec![Token::Assign, Token::Assign, Token::EOF]);
    assert_eq!(scan_all("let ter"), vec![Token::Let, ident("ter"), Token::EOF]);
    assert_eq!(scan_all("1 2"), vec![Token::Int(1), Token::Int(2), Token::EOF]);
}

#[test]
fn two_byte_operators_are_greedy() {
    assert_eq!(scan_all("=="), vec![Token::Equal, Token::EOF]);
    assert_eq!(scan_all("!="), vec![Token::NotEqual, Token::EOF]);
    assert_eq!(scan_all("="), vec![Token::Assign, Token::EOF]);
    assert_eq!(scan_all("!"), vec![Token::Bang, Token::EOF]);
    assert_eq!(scan_all("==="), vec![Token::Equal, Token::Assign, Token::EOF]);
    assert_eq!(scan_all("!=="), vec![Token::NotEqual, Token::Assign, Token::EOF]);
    assert_eq!(scan_all("=!"), vec![Token::Assign, Token::Bang, Token::EOF]);
    assert_eq!(scan_all("!!="), vec![Token::Bang, Token::NotEqual, Token::EOF]);
    assert_eq!(scan_all("=a"), vec![Token::Assign, ident("a"), Token::EOF]);
}

#[test]
fn reserved_words() {
    assert_eq!(
        scan_all("fn let true false if else return"),
        vec![
            Token::Function,
            Token::Let,
            Token::Bool(true),
            Token::Bool(false),
            Token::If,
            Token::Else,
            Token::Return,
            Token::EOF,
        ]
    );
}

#[test]
fn words_around_reserved_words_are_identifiers() {
    assert_eq!(scan_all("fnord"), vec![ident("fnord"), Token::EOF]);
    assert_eq!(scan_all("letter"), vec![ident("letter"), Token::EOF]);
    assert_eq!(scan_all("elif"), vec![ident("elif"), Token::EOF]);
    assert_eq!(scan_all("returns"), vec![ident("returns"), Token::EOF]);
    assert_eq!(scan_all("f"), vec![ident("f"), Token::EOF]);
    assert_eq!(scan_all("tru"), vec![ident("tru"), Token::EOF]);
}

#[test]
fn reserved_words_are_case_sensitive() {
    assert_eq!(
        scan_all("Fn LET True"),
        vec![ident("Fn"), ident("LET"), ident("True"), Token::EOF]
    );
}

#[test]
fn identifiers_keep_their_text() {
    assert_eq!(
        scan_all("_ _private CamelCase snake_case"),
        vec![ident("_"), ident("_private"), ident("CamelCase"), ident("snake_case"), Token::EOF]
    );
}

#[test]
fn digits_end_an_identifier() {
    assert_eq!(scan_all("ab12"), vec![ident("ab"), Token::Int(12), Token::EOF]);
    assert_eq!(scan_all("12ab"), vec![Token::Int(12), ident("ab"), Token::EOF]);
    assert_eq!(scan_all("fn2"), vec![Token::Function, Token::Int(2), Token::EOF]);
}

#[test]
fn literals_keep_their_value() {
    assert_eq!(scan_all("0"), vec![Token::Int(0), Token::EOF]);
    assert_eq!(scan_all("7"), vec![Token::Int(7), Token::EOF]);
    assert_eq!(scan_all("1234567890"), vec![Token::Int(1234567890), Token::EOF]);
    assert_eq!(scan_all("2147483647"), vec![Token::Int(i32::MAX), Token::EOF]);
    for n in [0, 9, 10, 99, 100, 4096, 65535, 1000000007] {
        let text = format!("{}", n);
        assert_eq!(scan_all(&text), vec![Token::Int(n), Token::EOF]);
    }
}

#[test]
fn leading_zeros_do_not_count() {
    assert_eq!(scan_all("007"), vec![Token::Int(7), Token::EOF]);
    assert_eq!(scan_all("00000000000000000042"), vec![Token::Int(42), Token::EOF]);
}

#[test]
fn minus_is_a_token_of_its_own() {
    assert_eq!(scan_all("-5"), vec![Token::Minus, Token::Int(5), Token::EOF]);
}

#[test]
fn too_large_literal_is_announced() {
    assert!(!Lexer::new("2147483648").next_fits());
    assert!(!Lexer::new("  99999999999999999999;").next_fits());
    assert!(Lexer::new("2147483647").next_fits());
    assert!(Lexer::new("x 2147483648").next_fits());
    let mut lexer = Lexer::new("x 2147483648");
    assert_eq!(lexer.next_token(), ident("x"));
    assert!(!lexer.next_fits());
}

#[test]
fn unknown_bytes_are_illegal_and_skipped() {
    assert_eq!(
        scan_all("a @ b"),
        vec![ident("a"), Token::Illegal, ident("b"), Token::EOF]
    );
    assert_eq!(
        scan_all("#$%"),
        vec![Token::Illegal, Token::Illegal, Token::Illegal, Token::EOF]
    );
}

#[test]
fn text_beyond_ascii_is_read_byte_by_byte() {
    assert_eq!(
        scan_all("ab\u{e9}cd"),
        vec![ident("ab"), Token::Illegal, Token::Illegal, ident("cd"), Token::EOF]
    );
    assert_eq!(
        scan_all("\u{20ac}x"),
        vec![Token::Illegal, Token::Illegal, Token::Illegal, ident("x"), Token::EOF]
    );
}

#[test]
fn nul_byte_is_not_the_end() {
    let mut lexer = Lexer::new("\0a");
    assert_eq!(lexer.next_token(), Token::Illegal);
    assert_eq!(lexer.next_token(), ident("a"));
    assert_eq!(lexer.next_token(), Token::EOF);
    assert_eq!(lexer.next_token(), Token::EOF);
    assert_eq!(scan_all("=\0="), vec![Token::Assign, Token::Illegal, Token::Assign, Token::EOF]);
}

#[test]
fn peeking_does_not_move() {
    let mut lexer = Lexer::new("ab");
    assert_eq!(lexer.peak_char(), 98);
    assert_eq!(lexer.peak_char(), 98);
    assert!(lexer.next_char_is(98));
    assert!(!lexer.next_char_is(97));
    lexer.read_char();
    assert_eq!(lexer.peak_char(), 0);
    assert!(lexer.next_char_is(0));
    assert_eq!(lexer.next_token(), ident("b"));
}

#[test]
fn advancing_by_hand_skips_a_byte() {
    let mut lexer = Lexer::new("a+b");
    lexer.read_char();
    assert_eq!(lexer.next_token(), Token::Plus);
    lexer.read_char();
    assert_eq!(lexer.next_token(), Token::EOF);
    lexer.read_char();
    lexer.read_char();
    assert_eq!(lexer.peak_char(), 0);
    assert_eq!(lexer.next_token(), Token::EOF);
}

#[test]
fn tokens_compare_by_variant_and_payload() {
    assert_eq!(Token::Int(5), Token::Int(5));
    assert_ne!(Token::Int(5), Token::Int(6));
    assert_ne!(ident("a"), ident("b"));
    assert_ne!(Token::Bool(true), Token::Bool(false));
    assert_ne!(Token::Assign, Token::Equal);
    assert_eq!(format!("{:?}", Token::Int(5)), "Int(5)");
}

#[test]
fn the_input_can_be_had_back() {
    let mut lexer = Lexer::new("let x = 1;");
    assert_eq!(lexer.input(), "let x = 1;");
    lexer.next_token();
    lexer.next_token();
    assert_eq!(lexer.input(), "let x = 1;");
    assert_eq!(Lexer::new("").input(), "");
}

#[test]
fn advancing_past_the_end_changes_no_token() {
    let mut lexer = Lexer::new("");
    lexer.read_char();
    lexer.read_char();
    assert_eq!(lexer.peak_char(), 0);
    assert!(lexer.next_fits());
    assert_eq!(lexer.next_token(), Token::EOF);
    let mut lexer = Lexer::new("a");
    for _ in 0..5 {
        lexer.read_char();
    }
    assert!(!lexer.next_char_is(97));
    assert_eq!(lexer.next_token(), Token::EOF);
    assert_eq!(lexer.next_token(), Token::EOF);
}

#[test]
fn many_runs_of_whitespace_change_no_token() {
    let expected = vec![
        Token::If,
        Token::Lparen,
        ident("a"),
        Token::Equal,
        Token::Int(10),
        Token::Rparen,
        Token::Lbrace,
        Token::Rbrace,
        Token::EOF,
    ];
    assert_eq!(scan_all("if(a==10){}"), expected);
    assert_eq!(scan_all("if (a == 10) {}"), expected);
    assert_eq!(scan_all("\n\tif\r\n(  a\t==\n10 )\t{ \r}\n\n"), expected);
}
