use rlox::report::{Diagnostic, ErrorReporter, ScanError};
use rlox::scanner::Scanner;
use rlox::token::{Literal, Token, TokenType};

fn scan(source: &str) -> (Vec<Token>, ErrorReporter) {
    let mut reporter = ErrorReporter::new();
    let tokens = {
        let mut scanner = Scanner::new(source.to_string(), &mut reporter);
        scanner.scan_tokens().to_vec()
    };
    (tokens, reporter)
}

fn kinds(tokens: &[Token]) -> Vec<TokenType> {
    tokens.iter().map(|t| t.kind).collect()
}

fn lexemes(tokens: &[Token]) -> Vec<String> {
    tokens.iter().map(|t| t.lexeme.clone()).collect()
}

fn number_value(token: &Token) -> f64 {
    match &token.literal {
        Some(Literal::Number(text)) => text.parse::<f64>().unwrap(),
        other => panic!("not a number literal: {:?}", other),
    }
}

fn assert_eof(token: &Token) {
    assert_eq!(token.kind, TokenType::EOF);
    assert_eq!(token.lexeme, "");
    assert!(token.literal.is_none());
}

#[test]
fn empty_input_yields_only_eof() {
    let (tokens, reporter) = scan("");
    assert_eq!(tokens.len(), 1);
    assert_eof(&tokens[0]);
    assert!(!reporter.had_error);
}

#[test]
fn every_scan_ends_in_eof() {
    for source in ["var x = 1;", "\"open", "@@@", "// only a comment", "\n\n", "1.2.3"] {
        let (tokens, _) = scan(source);
        assert_eof(tokens.last().unwrap());
        assert_eq!(tokens.iter().filter(|t| t.kind == TokenType::EOF).count(), 1);
    }
}

#[test]
fn tokens_follow_source_order_without_overlap() {
    let source = "fun add(a, b) { return a + b; } // sum\nprint add(1, 2.5) >= 3;";
    let (tokens, reporter) = scan(source);
    assert!(!reporter.had_error);
    let mut offset = 0;
    for token in &tokens[..tokens.len() - 1] {
        assert!(!token.lexeme.is_empty());
        let found = source[offset..].find(&token.lexeme).unwrap();
        offset += found + token.lexeme.len();
    }
    assert_eq!(
        lexemes(&tokens[..5]),
        vec!["fun", "add", "(", "a", ","]
    );
}

#[test]
fn reserved_words_alone() {
    let table = [
        ("and", TokenType::And),
        ("class", TokenType::Class),
        ("else", TokenType::Else),
        ("false", TokenType::False),
        ("for", TokenType::For),
        ("fun", TokenType::Fun),
        ("if", TokenType::If),
        ("nil", TokenType::Nil),
        ("or", TokenType::Or),
        ("print", TokenType::Print),
        ("return", TokenType::Return),
        ("super", TokenType::Super),
        ("this", TokenType::This),
        ("true", TokenType::True),
        ("var", TokenType::Var),
        ("while", TokenType::While),
    ];
    for (word, kind) in table {
        let (tokens, reporter) = scan(word);
        assert_eq!(tokens.len(), 2, "{}", word);
        assert_eq!(tokens[0].kind, kind);
        assert_eq!(tokens[0].lexeme, word);
        assert!(tokens[0].literal.is_none());
        assert_eof(&tokens[1]);
        assert!(!reporter.had_error);
    }
}

#[test]
fn keyword_matching_is_case_sensitive() {
    for word in ["And", "CLASS", "whilE", "Nil"] {
        let (tokens, _) = scan(word);
        assert_eq!(kinds(&tokens), vec![TokenType::Identifier, TokenType::EOF]);
        assert_eq!(tokens[0].lexeme, word);
    }
}

#[test]
fn keyword_prefix_and_extension_are_identifiers() {
    let (tokens, _) = scan("an andy _and for2");
    assert_eq!(
        kinds(&tokens),
        vec![
            TokenType::Identifier,
            TokenType::Identifier,
            TokenType::Identifier,
            TokenType::Identifier,
            TokenType::EOF
        ]
    );
}

#[test]
fn string_literal_excludes_quotes() {
    let (tokens, reporter) = scan("\"hello\"");
    assert_eq!(kinds(&tokens), vec![TokenType::String, TokenType::EOF]);
    assert_eq!(tokens[0].lexeme, "\"hello\"");
    match &tokens[0].literal {
        Some(Literal::Str(s)) => assert_eq!(s, "hello"),
        other => panic!("unexpected literal {:?}", other),
    }
    assert!(!reporter.had_error);
}

#[test]
fn unterminated_string_reports_once() {
    let (tokens, reporter) = scan("\"hello");
    assert_eq!(kinds(&tokens), vec![TokenType::EOF]);
    assert!(reporter.had_error);
    assert_eq!(
        reporter.diagnostics,
        vec![Diagnostic { line: 1, error: ScanError::UnterminatedString }]
    );
}

#[test]
fn unterminated_string_reports_line_of_end() {
    let (tokens, reporter) = scan("1\n\"a\nb\n");
    assert_eq!(kinds(&tokens), vec![TokenType::Number, TokenType::EOF]);
    assert_eq!(
        reporter.diagnostics,
        vec![Diagnostic { line: 4, error: ScanError::UnterminatedString }]
    );
}

#[test]
fn integer_number() {
    let (tokens, _) = scan("123");
    assert_eq!(kinds(&tokens), vec![TokenType::Number, TokenType::EOF]);
    assert_eq!(tokens[0].lexeme, "123");
    assert_eq!(number_value(&tokens[0]), 123.0);
}

#[test]
fn fractional_number() {
    let (tokens, _) = scan("123.456");
    assert_eq!(kinds(&tokens), vec![TokenType::Number, TokenType::EOF]);
    assert_eq!(number_value(&tokens[0]), 123.456);
}

#[test]
fn trailing_dot_is_separate() {
    let (tokens, _) = scan("123.");
    assert_eq!(kinds(&tokens), vec![TokenType::Number, TokenType::Dot, TokenType::EOF]);
    assert_eq!(number_value(&tokens[0]), 123.0);
    assert_eq!(tokens[1].lexeme, ".");
}

#[test]
fn method_call_dot_after_number() {
    let (tokens, _) = scan("12.abs");
    assert_eq!(
        kinds(&tokens),
        vec![TokenType::Number, TokenType::Dot, TokenType::Identifier, TokenType::EOF]
    );
    assert_eq!(lexemes(&tokens), vec!["12", ".", "abs", ""]);
}

#[test]
fn comment_emits_nothing_and_counts_its_newline() {
    let mut reporter = ErrorReporter::new();
    let mut scanner = Scanner::new("// comment\n123".to_string(), &mut reporter);
    let tokens = scanner.scan_tokens().to_vec();
    assert_eq!(scanner.line_no, 2);
    assert_eq!(kinds(&tokens), vec![TokenType::Number, TokenType::EOF]);
    assert_eq!(number_value(&tokens[0]), 123.0);
}

#[test]
fn slash_alone_is_division() {
    let (tokens, _) = scan("8 / 2");
    assert_eq!(
        kinds(&tokens),
        vec![TokenType::Number, TokenType::Slash, TokenType::Number, TokenType::EOF]
    );
}

#[test]
fn bang_and_bang_equal() {
    let (tokens, _) = scan("!=");
    assert_eq!(kinds(&tokens), vec![TokenType::BangEqual, TokenType::EOF]);
    assert_eq!(tokens[0].lexeme, "!=");
    let (tokens, _) = scan("!a");
    assert_eq!(kinds(&tokens), vec![TokenType::Bang, TokenType::Identifier, TokenType::EOF]);
    let (tokens, _) = scan("!!");
    assert_eq!(kinds(&tokens), vec![TokenType::Bang, TokenType::Bang, TokenType::EOF]);
    let (tokens, _) = scan("!");
    assert_eq!(kinds(&tokens), vec![TokenType::Bang, TokenType::EOF]);
}

#[test]
fn operators_with_optional_equal() {
    let (tokens, _) = scan("= == < <= > >= ===");
    assert_eq!(
        kinds(&tokens),
        vec![
            TokenType::Equal,
            TokenType::EqualEqual,
            TokenType::Less,
            TokenType::LessEqual,
            TokenType::Greater,
            TokenType::GreaterEqual,
            TokenType::EqualEqual,
            TokenType::Equal,
            TokenType::EOF
        ]
    );
}

#[test]
fn single_character_punctuation() {
    let (tokens, _) = scan("(){},.-+;*");
    assert_eq!(
        kinds(&tokens),
        vec![
            TokenType::LeftParen,
            TokenType::RightParen,
            TokenType::LeftBrace,
            TokenType::RightBrace,
            TokenType::Comma,
            TokenType::Dot,
            TokenType::Minus,
            TokenType::Plus,
            TokenType::Semicolon,
            TokenType::Star,
            TokenType::EOF
        ]
    );
}

#[test]
fn unexpected_character_is_skipped() {
    let (with_at, reporter) = scan("var x = @ 1;");
    let (without, clean) = scan("var x =  1;");
    assert_eq!(kinds(&with_at), kinds(&without));
    assert_eq!(lexemes(&with_at), lexemes(&without));
    assert!(!clean.had_error);
    assert!(reporter.had_error);
    assert_eq!(
        reporter.diagnostics,
        vec![Diagnostic { line: 1, error: ScanError::UnexpectedCharacter }]
    );
}

#[test]
fn unexpected_character_at_front() {
    let (tokens, reporter) = scan("@print 1");
    assert_eq!(
        kinds(&tokens),
        vec![TokenType::Print, TokenType::Number, TokenType::EOF]
    );
    assert_eq!(
        reporter.diagnostics,
        vec![Diagnostic { line: 1, error: ScanError::UnexpectedCharacter }]
    );
}

#[test]
fn every_bad_character_is_reported() {
    let (tokens, reporter) = scan("#\n$ %");
    assert_eq!(kinds(&tokens), vec![TokenType::EOF]);
    assert_eq!(
        reporter.diagnostics,
        vec![
            Diagnostic { line: 1, error: ScanError::UnexpectedCharacter },
            Diagnostic { line: 2, error: ScanError::UnexpectedCharacter },
            Diagnostic { line: 2, error: ScanError::UnexpectedCharacter },
        ]
    );
}

#[test]
fn multiline_string_advances_lines() {
    let (tokens, reporter) = scan("\"one\ntwo\"\n// note\n@");
    assert_eq!(kinds(&tokens), vec![TokenType::String, TokenType::EOF]);
    match &tokens[0].literal {
        Some(Literal::Str(s)) => assert_eq!(s, "one\ntwo"),
        other => panic!("unexpected literal {:?}", other),
    }
    assert_eq!(
        reporter.diagnostics,
        vec![Diagnostic { line: 4, error: ScanError::UnexpectedCharacter }]
    );
}

#[test]
fn second_scan_changes_nothing() {
    let mut reporter = ErrorReporter::new();
    let mut scanner = Scanner::new("1 @".to_string(), &mut reporter);
    let first = scanner.scan_tokens().to_vec();
    let second = scanner.scan_tokens().to_vec();
    assert_eq!(kinds(&first), kinds(&second));
    assert_eq!(second.len(), 2);
    drop(scanner);
    assert_eq!(reporter.diagnostics.len(), 1);
}

#[test]
fn reporter_latches_across_scans() {
    let mut reporter = ErrorReporter::new();
    {
        let mut scanner = Scanner::new("@".to_string(), &mut reporter);
        scanner.scan_tokens();
    }
    {
        let mut scanner = Scanner::new("ok".to_string(), &mut reporter);
        scanner.scan_tokens();
    }
    assert!(reporter.had_error);
    assert_eq!(reporter.diagnostics.len(), 1);
}

#[test]
fn error_messages() {
    assert_eq!(ScanError::UnexpectedCharacter.message(), "Unexpected character.");
    assert_eq!(ScanError::UnterminatedString.message(), "Unterminated string.");
    assert_eq!(ScanError::InvalidNumber.message(), "Invalid numeric literal.");
}

#[test]
fn non_ascii_letters_form_identifiers() {
    let (tokens, reporter) = scan("été = 1");
    assert!(!reporter.had_error);
    assert_eq!(
        kinds(&tokens),
        vec![TokenType::Identifier, TokenType::Equal, TokenType::Number, TokenType::EOF]
    );
    assert_eq!(tokens[0].lexeme, "été");
}

#[test]
fn non_ascii_digit_continues_but_does_not_start_identifier() {
    // U+0663 ARABIC-INDIC DIGIT THREE is numeric, not alphabetic.
    let (tokens, _) = scan("a\u{0663}");
    assert_eq!(kinds(&tokens), vec![TokenType::Identifier, TokenType::EOF]);
    assert_eq!(tokens[0].lexeme, "a\u{0663}");
    let (tokens, reporter) = scan("\u{0663}");
    assert_eq!(kinds(&tokens), vec![TokenType::EOF]);
    assert_eq!(
        reporter.diagnostics,
        vec![Diagnostic { line: 1, error: ScanError::UnexpectedCharacter }]
    );
}

#[test]
fn multibyte_text_keeps_lookahead_by_character() {
    let (tokens, _) = scan("\"ü\"!=\"€\"");
    assert_eq!(
        kinds(&tokens),
        vec![TokenType::String, TokenType::BangEqual, TokenType::String, TokenType::EOF]
    );
    assert_eq!(lexemes(&tokens), vec!["\"ü\"", "!=", "\"€\"", ""]);
}

#[test]
fn underscore_starts_identifier() {
    let (tokens, _) = scan("_x1 9y");
    assert_eq!(
        kinds(&tokens),
        vec![TokenType::Identifier, TokenType::Number, TokenType::Identifier, TokenType::EOF]
    );
    assert_eq!(lexemes(&tokens), vec!["_x1", "9", "y", ""]);
}
