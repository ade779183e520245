use ir_compiler::scanner::{LexingError, Scanner, Token, TokenType};

fn kinds(tokens: &[Token]) -> Vec<TokenType> {
    tokens.iter().map(|t| t.token_type.clone()).collect()
}

fn label(name: &str) -> TokenType {
    TokenType::Label { name: name.to_string() }
}

fn register(name: &str) -> TokenType {
    TokenType::Register { name: name.to_string() }
}

#[test]
fn empty_source_gives_only_eof() {
    let mut s = Scanner::new("");
    let tokens = s.scan_tokens().unwrap();
    assert_eq!(tokens.len(), 1);
    assert_eq!(tokens[0].token_type, TokenType::EOF);
    assert_eq!(tokens[0].line, 0);
}

#[test]
fn punctuation_tokens() {
    let mut s = Scanner::new("(){},:=");
    let tokens = s.scan_tokens().unwrap();
    assert_eq!(
        kinds(&tokens),
        vec![
            TokenType::LeftParen,
            TokenType::RightParen,
            TokenType::LeftBrace,
            TokenType::RightBrace,
            TokenType::Comma,
            TokenType::Colon,
            TokenType::Equal,
            TokenType::EOF,
        ]
    );
}

#[test]
fn keywords_and_types() {
    let mut s = Scanner::new("i32 add sub mul div exit define ret call jmp cmp branch le");
    let tokens = s.scan_tokens().unwrap();
    assert_eq!(
        kinds(&tokens),
        vec![
            TokenType::I32,
            TokenType::Add,
            TokenType::Sub,
            TokenType::Mul,
            TokenType::Div,
            TokenType::Exit,
            TokenType::Define,
            TokenType::Return,
            TokenType::Call,
            TokenType::Jmp,
            TokenType::ICmp,
            TokenType::Branch,
            TokenType::LE,
            TokenType::EOF,
        ]
    );
}

#[test]
fn keyword_followed_directly_by_punctuation() {
    let mut s = Scanner::new("call(ret");
    let tokens = s.scan_tokens().unwrap();
    assert_eq!(
        kinds(&tokens),
        vec![TokenType::Call, TokenType::LeftParen, TokenType::Return, TokenType::EOF]
    );
}

#[test]
fn other_words_are_labels() {
    let mut s = Scanner::new("yes adder Le x9");
    let tokens = s.scan_tokens().unwrap();
    assert_eq!(
        kinds(&tokens),
        vec![label("yes"), label("adder"), label("Le"), label("x9"), TokenType::EOF]
    );
}

#[test]
fn function_name_gives_function_label_and_colon() {
    let mut s = Scanner::new("define @main");
    let tokens = s.scan_tokens().unwrap();
    assert_eq!(
        kinds(&tokens),
        vec![
            TokenType::Define,
            TokenType::Function { name: "main".to_string() },
            label("main"),
            TokenType::Colon,
            TokenType::EOF,
        ]
    );
}

#[test]
fn register_keeps_its_sign() {
    let mut s = Scanner::new("%1 %sum2");
    let tokens = s.scan_tokens().unwrap();
    assert_eq!(kinds(&tokens), vec![register("%1"), register("%sum2"), TokenType::EOF]);
}

#[test]
fn identifiers_take_unicode_letters() {
    let mut s = Scanner::new("%é1 nä");
    let tokens = s.scan_tokens().unwrap();
    assert_eq!(kinds(&tokens), vec![register("%é1"), label("nä"), TokenType::EOF]);
}

#[test]
fn integer_literals() {
    let mut s = Scanner::new("0 42 9223372036854775807");
    let tokens = s.scan_tokens().unwrap();
    assert_eq!(
        kinds(&tokens),
        vec![
            TokenType::IntLiteral { value: 0 },
            TokenType::IntLiteral { value: 42 },
            TokenType::IntLiteral { value: i64::MAX },
            TokenType::EOF,
        ]
    );
}

#[test]
fn integer_too_large() {
    let mut s = Scanner::new("\n9223372036854775808");
    match s.scan_tokens() {
        Err(LexingError::IntegerTooLarge { line }) => assert_eq!(line, 1),
        other => panic!("unexpected result {:?}", other),
    }
}

#[test]
fn string_literal_counts_its_newlines() {
    let mut s = Scanner::new("\"a\nb\" x");
    let tokens = s.scan_tokens().unwrap();
    assert_eq!(tokens.len(), 3);
    assert_eq!(tokens[0].token_type, TokenType::String { content: "a\nb".to_string() });
    assert_eq!(tokens[0].line, 1);
    assert_eq!(tokens[1].token_type, label("x"));
    assert_eq!(tokens[1].line, 1);
    assert_eq!(tokens[2].line, 1);
}

#[test]
fn unterminated_string_reports_start_line() {
    let mut s = Scanner::new("\n\"abc\ndef");
    match s.scan_tokens() {
        Err(LexingError::UnterminatedString { line }) => assert_eq!(line, 1),
        other => panic!("unexpected result {:?}", other),
    }
}

#[test]
fn unexpected_character() {
    let mut s = Scanner::new("add\n\n  #");
    match s.scan_tokens() {
        Err(LexingError::UnexpectedCharacter { line }) => assert_eq!(line, 2),
        other => panic!("unexpected result {:?}", other),
    }
}

#[test]
fn lines_are_counted_from_zero() {
    let mut s = Scanner::new("jmp\r\n\tyes\n");
    let tokens = s.scan_tokens().unwrap();
    assert_eq!(tokens.len(), 3);
    assert_eq!((tokens[0].token_type.clone(), tokens[0].line), (TokenType::Jmp, 0));
    assert_eq!((tokens[1].token_type.clone(), tokens[1].line), (label("yes"), 1));
    assert_eq!((tokens[2].token_type.clone(), tokens[2].line), (TokenType::EOF, 2));
}

#[test]
fn scan_token_steps_one_token_at_a_time() {
    let mut s = Scanner::new("@f x");
    let mut tokens = Vec::new();
    assert!(s.scan_token(&mut tokens).unwrap());
    assert_eq!(kinds(&tokens), vec![TokenType::Function { name: "f".to_string() }, label("f"), TokenType::Colon]);
    assert!(s.scan_token(&mut tokens).unwrap());
    assert_eq!(tokens.len(), 3);
    assert!(s.scan_token(&mut tokens).unwrap());
    assert_eq!(tokens.len(), 4);
    assert!(!s.scan_token(&mut tokens).unwrap());
    assert_eq!(tokens.len(), 4);
}

#[test]
fn scanning_twice_gives_the_same_tokens() {
    let source = "define @main() {\n %1 = add i32 2, 3\n ret %1\n}\n";
    let mut s = Scanner::new(source);
    let first = s.scan_tokens().unwrap();
    let second = s.scan_tokens().unwrap();
    assert_eq!(kinds(&first), kinds(&second));
    let lines: Vec<i32> = first.iter().map(|t| t.line).collect();
    let lines2: Vec<i32> = second.iter().map(|t| t.line).collect();
    assert_eq!(lines, lines2);
}

#[test]
fn round_trip_program_tokens() {
    let source = "define @main() {\n%1 = add i32 2, 3\n%2 = cmp le i32 %1, 10\nbranch %2 yes no\nyes:\nexit 0\nno:\nexit 1\n}\n";
    let mut s = Scanner::new(source);
    let tokens = s.scan_tokens().unwrap();
    assert_eq!(
        kinds(&tokens),
        vec![
            TokenType::Define,
            TokenType::Function { name: "main".to_string() },
            label("main"),
            TokenType::Colon,
            TokenType::LeftParen,
            TokenType::RightParen,
            TokenType::LeftBrace,
            register("%1"),
            TokenType::Equal,
            TokenType::Add,
            TokenType::I32,
            TokenType::IntLiteral { value: 2 },
            TokenType::Comma,
            TokenType::IntLiteral { value: 3 },
            register("%2"),
            TokenType::Equal,
            TokenType::ICmp,
            TokenType::LE,
            TokenType::I32,
            register("%1"),
            TokenType::Comma,
            TokenType::IntLiteral { value: 10 },
            TokenType::Branch,
            register("%2"),
            label("yes"),
            label("no"),
            label("yes"),
            TokenType::Colon,
            TokenType::Exit,
            TokenType::IntLiteral { value: 0 },
            label("no"),
            TokenType::Colon,
            TokenType::Exit,
            TokenType::IntLiteral { value: 1 },
            TokenType::RightBrace,
            TokenType::EOF,
        ]
    );
    assert_eq!(tokens.last().unwrap().line, 9);
}
