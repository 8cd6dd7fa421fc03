use teeny_tiny_compiler::lexer::{Lexer, LexingError};
use teeny_tiny_compiler::token::{Token, TokenKind};

fn kinds(source: &str) -> Vec<TokenKind> {
    let mut lexer = Lexer::build(String::from(source));
    let mut found = Vec::new();
    loop {
        let token = lexer.get_token().expect("the text can be split into tokens");
        found.push(token.kind);
        if token.kind == TokenKind::EOF {
            return found;
        }
    }
}

fn first(source: &str) -> Result<(TokenKind, String), LexingError> {
    let mut lexer = Lexer::build(String::from(source));
    lexer.get_token().map(|token| (token.kind, token.text))
}

#[test]
fn test_peek() {
    let source = String::from("LET foobar = 123 \n");
    let lexer = Lexer::build(source);
    assert_eq!(lexer.peek(), 'E');
}

#[test]
fn test_next() {
    let source = String::from("LET foobar = 123");
    let lexer = Lexer::build(source);
    assert_eq!(lexer.cur_char, 'L');
}

#[test]
fn test_token() {
    let source = String::from("> */");
    let mut lexer = Lexer::build(source);

    assert_eq!(lexer.get_token().unwrap_or(Token::default()).kind, TokenKind::GT);
}

#[test]
fn test_whitespace() {
    let source = String::from(" - */");
    let mut lexer = Lexer::build(source);

    assert_eq!(lexer.get_token().unwrap_or(Token::default()).kind, TokenKind::MINUS);
}

#[test]
fn test_comment() {
    let source = String::from("# This is a comment!\n - */");
    let mut lexer = Lexer::build(source);

    assert_eq!(lexer.get_token().unwrap_or(Token::default()).kind, TokenKind::NEWLINE);
}

#[test]
fn test_string() {
    let source = String::from("\"This is Timothy\" - */");
    let mut lexer = Lexer::build(source);
    assert_eq!(lexer.get_token().unwrap_or(Token::default()).kind, TokenKind::STRING);
}

#[test]
fn test_number() {
    let source = String::from("1.90 - */");
    let mut lexer = Lexer::build(source);
    assert_eq!(lexer.get_token().unwrap_or(Token::default()).kind, TokenKind::NUMBER);
}

#[test]
fn test_identifier() {
    let source = String::from("foo 1.90");
    let mut lexer = Lexer::build(source);
    assert_eq!(lexer.get_token().unwrap_or(Token::default()).kind, TokenKind::IDENT);
}

#[test]
fn test_keywords() {
    let source = String::from("WHILE 1.90");
    let mut lexer = Lexer::build(source);
    assert_eq!(lexer.get_token().unwrap_or(Token::default()).kind, TokenKind::WHILE);
}

#[test]
fn test_operators() {
    let source = String::from("= +");
    let mut lexer = Lexer::build(source);
    assert_eq!(lexer.get_token().unwrap_or(Token::default()).kind, TokenKind::EQ);
}

#[test]
fn build_appends_a_line_terminator() {
    let lexer = Lexer::build(String::from("ab"));
    assert_eq!(lexer.source, vec!['a', 'b', '\n']);
    assert_eq!(lexer.cur_pos, 0);
    assert_eq!(lexer.cur_char, 'a');
    let empty = Lexer::build(String::new());
    assert_eq!(empty.source, vec!['\n']);
    assert_eq!(empty.cur_char, '\n');
}

#[test]
fn default_lexer_stands_at_the_end() {
    let mut lexer = Lexer::default();
    assert_eq!(lexer.cur_char, '\0');
    assert_eq!(lexer.peek(), '\0');
    let token = lexer.get_token().unwrap();
    assert_eq!(token.kind, TokenKind::EOF);
}

#[test]
fn next_char_counts_on_behind_the_end() {
    let mut lexer = Lexer::build(String::from("ab"));
    lexer.next_char();
    assert_eq!((lexer.cur_pos, lexer.cur_char), (1, 'b'));
    assert_eq!(lexer.peek(), '\n');
    lexer.next_char();
    assert_eq!((lexer.cur_pos, lexer.cur_char), (2, '\n'));
    assert_eq!(lexer.peek(), '\0');
    lexer.next_char();
    assert_eq!((lexer.cur_pos, lexer.cur_char), (3, '\0'));
    lexer.next_char();
    assert_eq!((lexer.cur_pos, lexer.cur_char), (4, '\0'));
    assert_eq!(lexer.peek(), '\0');
    lexer.next_char();
    assert_eq!((lexer.cur_pos, lexer.cur_char), (5, '\0'));
    let token = lexer.get_token().unwrap();
    assert_eq!(token.kind, teeny_tiny_compiler::token::TokenKind::EOF);
    assert_eq!(lexer.cur_pos, 5);
}

#[test]
fn next_char_reads_characters_not_bytes() {
    let mut lexer = Lexer::build(String::from("éa"));
    assert_eq!((lexer.cur_pos, lexer.cur_char), (0, 'é'));
    assert_eq!(lexer.peek(), 'a');
    lexer.next_char();
    assert_eq!((lexer.cur_pos, lexer.cur_char), (1, 'a'));
}

#[test]
fn skip_whitespace_passes_blanks_only() {
    let mut lexer = Lexer::build(String::from(" \t\r x"));
    lexer.skip_whitespace();
    assert_eq!((lexer.cur_pos, lexer.cur_char), (4, 'x'));
    lexer.skip_whitespace();
    assert_eq!(lexer.cur_pos, 4);
    let mut at_newline = Lexer::build(String::from("  \n x"));
    at_newline.skip_whitespace();
    assert_eq!((at_newline.cur_pos, at_newline.cur_char), (2, '\n'));
}

#[test]
fn skip_comment_stops_before_the_line_terminator() {
    let mut lexer = Lexer::build(String::from("# note\nx"));
    lexer.skip_comment();
    assert_eq!((lexer.cur_pos, lexer.cur_char), (6, '\n'));
    let mut plain = Lexer::build(String::from("x # note"));
    plain.skip_comment();
    assert_eq!(plain.cur_pos, 0);
}

#[test]
fn number_literals() {
    assert_eq!(first("123"), Ok((TokenKind::NUMBER, String::from("123"))));
    assert_eq!(first("1.90"), Ok((TokenKind::NUMBER, String::from("1.90"))));
    assert_eq!(first("1."), Err(LexingError));
    assert_eq!(first("1.x"), Err(LexingError));
    assert_eq!(first("7.25.5"), Ok((TokenKind::NUMBER, String::from("7.25"))));
    assert_eq!(first("12ab"), Ok((TokenKind::NUMBER, String::from("12"))));
}

#[test]
fn number_error_leaves_the_scanner_at_the_point() {
    let mut lexer = Lexer::build(String::from("  12.x"));
    assert_eq!(lexer.get_token().map(|token| token.kind), Err(LexingError));
    assert_eq!((lexer.cur_pos, lexer.cur_char), (4, '.'));
}

#[test]
fn operator_tokens() {
    assert_eq!(first("="), Ok((TokenKind::EQ, String::from("="))));
    assert_eq!(first("=="), Ok((TokenKind::EQEQ, String::from("=="))));
    assert_eq!(first("!"), Err(LexingError));
    assert_eq!(first("! ="), Err(LexingError));
    assert_eq!(first("!="), Ok((TokenKind::NOTEQ, String::from("!="))));
    assert_eq!(first(">"), Ok((TokenKind::GT, String::from(">"))));
    assert_eq!(first(">="), Ok((TokenKind::GTEQ, String::from(">="))));
    assert_eq!(first("<"), Ok((TokenKind::LT, String::from("<"))));
    assert_eq!(first("<="), Ok((TokenKind::LTEQ, String::from("<="))));
    assert_eq!(first("+"), Ok((TokenKind::PLUS, String::from("+"))));
    assert_eq!(first("-"), Ok((TokenKind::MINUS, String::from("-"))));
    assert_eq!(first("*"), Ok((TokenKind::ASTERISK, String::from("*"))));
    assert_eq!(first("/"), Ok((TokenKind::SLASH, String::from("/"))));
}

#[test]
fn operators_in_a_row() {
    assert_eq!(
        kinds("+- */ >>= = != <=<"),
        vec![
            TokenKind::PLUS,
            TokenKind::MINUS,
            TokenKind::ASTERISK,
            TokenKind::SLASH,
            TokenKind::GT,
            TokenKind::GTEQ,
            TokenKind::EQ,
            TokenKind::NOTEQ,
            TokenKind::LTEQ,
            TokenKind::LT,
            TokenKind::NEWLINE,
            TokenKind::EOF,
        ]
    );
}

#[test]
fn string_literals() {
    assert_eq!(
        first("\"This is Timothy\" - */"),
        Ok((TokenKind::STRING, String::from("This is Timothy")))
    );
    assert_eq!(first("\"\""), Ok((TokenKind::STRING, String::new())));
    assert_eq!(first("\"a\tb\""), Err(LexingError));
    assert_eq!(first("\"a\rb\""), Err(LexingError));
    assert_eq!(first("\"a\nb\""), Err(LexingError));
    assert_eq!(first("\"a\\b\""), Err(LexingError));
    assert_eq!(first("\"50%\""), Err(LexingError));
    assert_eq!(first("\"never closed"), Err(LexingError));
}

#[test]
fn string_is_followed_by_the_next_token() {
    assert_eq!(
        kinds("\"a b\"+"),
        vec![TokenKind::STRING, TokenKind::PLUS, TokenKind::NEWLINE, TokenKind::EOF]
    );
}

#[test]
fn unterminated_string_without_line_terminator() {
    let mut lexer = Lexer {
        source: vec!['"', 'a'],
        cur_char: '"',
        cur_pos: 0,
    };
    assert_eq!(lexer.get_token().map(|token| token.kind), Err(LexingError));
    assert_eq!(lexer.cur_pos, 2);
}

#[test]
fn comment_without_line_terminator_ends_the_text() {
    let mut lexer = Lexer {
        source: vec!['#', 'a'],
        cur_char: '#',
        cur_pos: 0,
    };
    assert_eq!(lexer.get_token().map(|token| token.kind), Ok(TokenKind::EOF));
}

#[test]
fn words() {
    assert_eq!(first("foo 1.90"), Ok((TokenKind::IDENT, String::from("foo"))));
    assert_eq!(first("foo1bar+"), Ok((TokenKind::IDENT, String::from("foo1bar"))));
    assert_eq!(first("WHILE 1.90"), Ok((TokenKind::WHILE, String::from("WHILE"))));
    assert_eq!(first("while"), Ok((TokenKind::IDENT, String::from("while"))));
    assert_eq!(first("WHILEX"), Ok((TokenKind::IDENT, String::from("WHILEX"))));
    assert_eq!(first("été2"), Ok((TokenKind::IDENT, String::from("été2"))));
}

#[test]
fn every_keyword() {
    assert_eq!(
        kinds("LABEL GOTO PRINT INPUT LET IF THEN ENDIF WHILE REPEAT ENDWHILE"),
        vec![
            TokenKind::LABEL,
            TokenKind::GOTO,
            TokenKind::PRINT,
            TokenKind::INPUT,
            TokenKind::LET,
            TokenKind::IF,
            TokenKind::THEN,
            TokenKind::ENDIF,
            TokenKind::WHILE,
            TokenKind::REPEAT,
            TokenKind::ENDWHILE,
            TokenKind::NEWLINE,
            TokenKind::EOF,
        ]
    );
}

#[test]
fn check_if_keyword_is_exact() {
    assert_eq!(Token::check_if_keyword(&String::from("LET")), Some(TokenKind::LET));
    assert_eq!(Token::check_if_keyword(&String::from("ENDIF")), Some(TokenKind::ENDIF));
    assert_eq!(Token::check_if_keyword(&String::from("let")), None);
    assert_eq!(Token::check_if_keyword(&String::from("LETX")), None);
    assert_eq!(Token::check_if_keyword(&String::from("IDENT")), None);
    assert_eq!(Token::check_if_keyword(&String::from("EOF")), None);
    assert_eq!(Token::check_if_keyword(&String::new()), None);
}

#[test]
fn unknown_characters_are_errors() {
    assert_eq!(first("@"), Err(LexingError));
    assert_eq!(first("("), Err(LexingError));
    assert_eq!(first("\0"), Err(LexingError));
    assert_eq!(first("_x"), Err(LexingError));
}

#[test]
fn end_of_file_repeats() {
    let mut lexer = Lexer::build(String::from("x"));
    assert_eq!(lexer.get_token().unwrap().kind, TokenKind::IDENT);
    assert_eq!(lexer.get_token().unwrap().kind, TokenKind::NEWLINE);
    let end = lexer.get_token().unwrap();
    assert_eq!((end.kind, end.text), (TokenKind::EOF, String::from("\0")));
    assert_eq!(lexer.get_token().unwrap().kind, TokenKind::EOF);
    assert_eq!(lexer.get_token().unwrap().kind, TokenKind::EOF);
    assert_eq!(lexer.cur_pos, 2);
}

#[test]
fn newline_token_holds_the_terminator() {
    assert_eq!(first("\nx"), Ok((TokenKind::NEWLINE, String::from("\n"))));
    assert_eq!(first(""), Ok((TokenKind::NEWLINE, String::from("\n"))));
}

#[test]
fn comment_line_yields_only_its_terminator() {
    assert_eq!(
        kinds("# This is a comment!\n - */"),
        vec![
            TokenKind::NEWLINE,
            TokenKind::MINUS,
            TokenKind::ASTERISK,
            TokenKind::SLASH,
            TokenKind::NEWLINE,
            TokenKind::EOF,
        ]
    );
    assert_eq!(
        kinds("LET x = 1 # LET y = 2\nPRINT x"),
        vec![
            TokenKind::LET,
            TokenKind::IDENT,
            TokenKind::EQ,
            TokenKind::NUMBER,
            TokenKind::NEWLINE,
            TokenKind::PRINT,
            TokenKind::IDENT,
            TokenKind::NEWLINE,
            TokenKind::EOF,
        ]
    );
}

#[test]
fn default_token_is_end_of_file() {
    let token = Token::default();
    assert_eq!(token.kind, TokenKind::EOF);
    assert_eq!(token.text, String::new());
    let copy = token.clone();
    assert_eq!((copy.kind, copy.text), (TokenKind::EOF, String::new()));
}

#[test]
fn lexing_error_message() {
    assert_eq!(LexingError.message(), "invalid lexing token");
}
