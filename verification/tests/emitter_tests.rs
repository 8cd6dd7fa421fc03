use teeny_tiny_compiler::emitter::Emitter;
use teeny_tiny_compiler::chars::{join, join3};
use teeny_tiny_compiler::error::CompileError;
use teeny_tiny_compiler::token::{name_of_kind, Token, TokenKind};
use teeny_tiny_compiler::Config;

#[test]
fn new_emitter_is_empty() {
    let emitter = Emitter::build(String::from("out.c"));
    assert_eq!(emitter.finalize(), String::new());
    assert_eq!(emitter.full_path(), "out.c");
}

#[test]
fn emit_appends_to_the_body() {
    let mut emitter = Emitter::build(String::from("out.c"));
    emitter.emit(String::from("a"));
    emitter.emit(String::from("b"));
    assert_eq!(emitter.finalize(), "ab");
}

#[test]
fn emit_line_adds_one_terminator() {
    let mut emitter = Emitter::build(String::from("out.c"));
    emitter.emit(String::from("x = "));
    emitter.emit_line(String::from("1;"));
    emitter.emit_line(String::new());
    assert_eq!(emitter.finalize(), "x = 1;\n\n");
}

#[test]
fn header_precedes_body_whatever_the_order_of_writing() {
    let mut emitter = Emitter::build(String::from("out.c"));
    emitter.emit_line(String::from("body one"));
    emitter.header_line(String::from("header one"));
    emitter.emit(String::from("body two"));
    emitter.header_line(String::from("header two"));
    assert_eq!(emitter.finalize(), "header one\nheader two\nbody one\nbody two");
    assert_eq!(emitter.full_path(), "out.c");
}

#[test]
fn finalize_can_be_repeated() {
    let mut emitter = Emitter::build(String::new());
    emitter.header_line(String::from("h"));
    assert_eq!(emitter.finalize(), "h\n");
    assert_eq!(emitter.finalize(), "h\n");
}

#[test]
fn config_needs_a_path() {
    let none: Vec<String> = Vec::new();
    assert_eq!(Config::build(&none).err(), Some("no arguments provided"));
    let only_program = vec![String::from("ttc")];
    assert_eq!(Config::build(&only_program).err(), Some("no arguments provided"));
}

#[test]
fn config_takes_the_second_argument() {
    let args = vec![String::from("ttc"), String::from("hello.teeny"), String::from("more")];
    let config = Config::build(&args).ok().expect("a path was given");
    assert_eq!(config.file_path, "hello.teeny");
}

#[test]
fn joins() {
    assert_eq!(join("ab", "cd"), "abcd");
    assert_eq!(join("", ""), "");
    assert_eq!(join3("a", "b", "c"), "abc");
}

#[test]
fn kind_names() {
    assert_eq!(name_of_kind(TokenKind::EOF), "EOF");
    assert_eq!(name_of_kind(TokenKind::NEWLINE), "NEWLINE");
    assert_eq!(name_of_kind(TokenKind::NUMBER), "NUMBER");
    assert_eq!(name_of_kind(TokenKind::IDENT), "IDENT");
    assert_eq!(name_of_kind(TokenKind::STRING), "STRING");
    assert_eq!(name_of_kind(TokenKind::ENDWHILE), "ENDWHILE");
    assert_eq!(name_of_kind(TokenKind::NOTEQ), "NOTEQ");
    assert_eq!(name_of_kind(TokenKind::GTEQ), "GTEQ");
    for kind in [
        TokenKind::EOF,
        TokenKind::NEWLINE,
        TokenKind::NUMBER,
        TokenKind::IDENT,
        TokenKind::STRING,
        TokenKind::LABEL,
        TokenKind::GOTO,
        TokenKind::PRINT,
        TokenKind::INPUT,
        TokenKind::LET,
        TokenKind::IF,
        TokenKind::THEN,
        TokenKind::ENDIF,
        TokenKind::WHILE,
        TokenKind::REPEAT,
        TokenKind::ENDWHILE,
        TokenKind::EQ,
        TokenKind::PLUS,
        TokenKind::MINUS,
        TokenKind::ASTERISK,
        TokenKind::SLASH,
        TokenKind::EQEQ,
        TokenKind::NOTEQ,
        TokenKind::LT,
        TokenKind::LTEQ,
        TokenKind::GT,
        TokenKind::GTEQ,
    ] {
        assert_eq!(name_of_kind(kind), format!("{:?}", kind));
    }
}

#[test]
fn messages() {
    assert_eq!(CompileError::Lexing.message(), "invalid lexing token");
    assert_eq!(
        CompileError::Syntax {
            expected: TokenKind::NEWLINE,
            found: TokenKind::IDENT,
            text: String::from("x"),
        }
        .message(),
        "Expected NEWLINE, got IDENT at x"
    );
    assert_eq!(
        CompileError::InvalidStatement { text: String::from("5"), kind: TokenKind::NUMBER }
            .message(),
        "Invalid statement at 5 (NUMBER)"
    );
    assert_eq!(
        CompileError::UnexpectedToken { text: String::from("\n") }.message(),
        "Unexpected token at \n"
    );
    assert_eq!(
        CompileError::MissingComparison { text: String::from("THEN") }.message(),
        "Expected comparison operator at: THEN"
    );
    assert_eq!(
        CompileError::DuplicateLabel { name: String::from("top") }.message(),
        "Label already exists: top"
    );
    assert_eq!(
        CompileError::UndeclaredLabel { name: String::from("out") }.message(),
        "Attempting to GOTO to undeclared label: out"
    );
    assert_eq!(
        CompileError::UndeclaredVariable { name: String::from("y") }.message(),
        "Referencing variable before assignment: y"
    );
}

#[test]
fn token_description() {
    let token = Token { text: String::from("foo"), kind: TokenKind::IDENT };
    assert_eq!(token.describe(), "foo, IDENT");
    assert_eq!(Token::default().describe(), ", EOF");
}
