use teeny_tiny_compiler::compile;
use teeny_tiny_compiler::emitter::Emitter;
use teeny_tiny_compiler::error::CompileError;
use teeny_tiny_compiler::lexer::Lexer;
use teeny_tiny_compiler::parser::Parser;
use teeny_tiny_compiler::token::TokenKind;

const PROLOGUE: &str = "#include <stdio.h>\nint main(void){\n";
const EPILOGUE: &str = "return 0;\n}\n";

fn parser(source: &str) -> Parser {
    let lexer = Lexer::build(String::from(source));
    let emitter = Emitter::build(String::from("out.c"));
    Parser::new(lexer, emitter).expect("the first token can be read")
}

/// The header lines behind the prologue and the body in front of the epilogue.
fn parts(source: &str, declared: &str) -> String {
    let text = compile(String::from(source)).expect("the program is valid");
    let start = format!("{}{}", PROLOGUE, declared);
    assert!(text.starts_with(&start), "header of {:?}", text);
    assert!(text.ends_with(EPILOGUE), "end of {:?}", text);
    String::from(&text[start.len()..text.len() - EPILOGUE.len()])
}

fn failure(source: &str) -> CompileError {
    compile(String::from(source)).expect_err("the program is not valid")
}

fn syntax(expected: TokenKind, found: TokenKind, text: &str) -> CompileError {
    CompileError::Syntax { expected, found, text: String::from(text) }
}

#[test]
fn let_then_print() {
    let text = compile(String::from("LET x = 5\nPRINT x\n")).unwrap();
    assert_eq!(
        text,
        "#include <stdio.h>\nint main(void){\nfloat x;\nx = 5;\nprintf(\"%.2f\\n\", (float)(x));\nreturn 0;\n}\n"
    );
    assert!(text.contains("float x;"));
    assert!(text.contains("x = 5;"));
    let print = text.find("printf(\"%.2f\\n\", (float)(x));").unwrap();
    let done = text.find("return 0;").unwrap();
    assert!(print < done);
}

#[test]
fn empty_program() {
    assert_eq!(compile(String::new()).unwrap(), format!("{}{}", PROLOGUE, EPILOGUE));
    assert_eq!(compile(String::from("\n\n  \n")).unwrap(), format!("{}{}", PROLOGUE, EPILOGUE));
    assert_eq!(
        compile(String::from("# nothing but a comment")).unwrap(),
        format!("{}{}", PROLOGUE, EPILOGUE)
    );
}

#[test]
fn source_without_final_line_terminator() {
    assert_eq!(parts("PRINT \"hi\"", ""), "printf(\"hi\\n\");\n");
}

#[test]
fn print_string() {
    assert_eq!(parts("PRINT \"hello, world\"\n", ""), "printf(\"hello, world\\n\");\n");
    assert_eq!(parts("PRINT \"\"\n", ""), "printf(\"\\n\");\n");
}

#[test]
fn print_expression() {
    assert_eq!(parts("PRINT 1+2*3\n", ""), "printf(\"%.2f\\n\", (float)(1+2*3));\n");
    assert_eq!(
        parts("PRINT -1.5 / +2 - 3\n", ""),
        "printf(\"%.2f\\n\", (float)(-1.5/+2-3));\n"
    );
}

#[test]
fn one_declaration_for_each_variable() {
    assert_eq!(
        parts("LET a = 1\nLET b = a\nLET a = a + b\nINPUT b\nINPUT c\n", "float a;\nfloat b;\nfloat c;\n"),
        "a = 1;\nb = a;\na = a+b;\nif(0 == scanf(\"%f\", &b)) {\nb = 0;\nscanf(\"%*s\");\n}\nif(0 == scanf(\"%f\", &c)) {\nc = 0;\nscanf(\"%*s\");\n}\n"
    );
}

#[test]
fn declarations_stand_in_order_of_first_use() {
    let text = compile(String::from("INPUT z\nLET a = z\nLET z = a\n")).unwrap();
    assert!(text.starts_with("#include <stdio.h>\nint main(void){\nfloat z;\nfloat a;\nif(0 == "));
    assert_eq!(text.matches("float z;").count(), 1);
    assert_eq!(text.matches("float a;").count(), 1);
}

#[test]
fn input_statement() {
    assert_eq!(
        parts("INPUT n\n", "float n;\n"),
        "if(0 == scanf(\"%f\", &n)) {\nn = 0;\nscanf(\"%*s\");\n}\n"
    );
}

#[test]
fn if_statement() {
    assert_eq!(
        parts("LET a = 1\nIF a > 0 THEN\nPRINT a\nENDIF\n", "float a;\n"),
        "a = 1;\nif(a>0}{\nprintf(\"%.2f\\n\", (float)(a));\n}\n"
    );
}

#[test]
fn while_statement() {
    assert_eq!(
        parts("LET a = 3\nWHILE a >= 1 REPEAT\n\nLET a = a - 1\n\nENDWHILE\n", "float a;\n"),
        "a = 3;\nwhile(a>=1){\na = a-1;\n}\n"
    );
}

#[test]
fn nested_blocks() {
    assert_eq!(
        parts(
            "LET a = 1\nWHILE a < 9 REPEAT\nIF a == 2 THEN\nIF a != 3 THEN\nENDIF\nLET b = a\nENDIF\nLET a = a + 1\nENDWHILE\nPRINT \"x\"\n",
            "float a;\nfloat b;\n"
        ),
        "a = 1;\nwhile(a<9){\nif(a==2}{\nif(a!=3}{\n}\nb = a;\n}\na = a+1;\n}\nprintf(\"x\\n\");\n"
    );
}

#[test]
fn chained_comparisons() {
    assert_eq!(
        parts("LET a = 1\nIF a < 2 <= 3 == 1 THEN\nENDIF\n", "float a;\n"),
        "a = 1;\nif(a<2<=3==1}{\n}\n"
    );
}

#[test]
fn labels_and_jumps() {
    assert_eq!(
        parts("GOTO end\nLABEL top\nGOTO top\nGOTO end\nLABEL end\n", ""),
        "goto end;\ntop:\ngoto top;\ngoto end;\nend:\n"
    );
}

#[test]
fn undeclared_label_before_other_labels() {
    assert_eq!(
        failure("GOTO nowhere\nLABEL a\nLABEL b\n"),
        CompileError::UndeclaredLabel { name: String::from("nowhere") }
    );
}

#[test]
fn undeclared_label_after_other_labels() {
    assert_eq!(
        failure("LABEL a\nGOTO a\nLABEL b\nGOTO nowhere\n"),
        CompileError::UndeclaredLabel { name: String::from("nowhere") }
    );
}

#[test]
fn first_undeclared_label_is_reported() {
    assert_eq!(
        failure("GOTO one\nGOTO two\nGOTO one\nLABEL three\n"),
        CompileError::UndeclaredLabel { name: String::from("one") }
    );
    assert_eq!(
        failure("GOTO one\nGOTO two\nLABEL one\n"),
        CompileError::UndeclaredLabel { name: String::from("two") }
    );
}

#[test]
fn duplicate_label() {
    assert_eq!(
        failure("LABEL a\nLABEL b\nLABEL a\nLABEL b\n"),
        CompileError::DuplicateLabel { name: String::from("a") }
    );
    assert_eq!(
        failure("LABEL a\nLABEL a\nGOTO nowhere\n"),
        CompileError::DuplicateLabel { name: String::from("a") }
    );
}

#[test]
fn duplicate_label_is_found_before_a_later_error_on_the_line() {
    assert_eq!(
        failure("LABEL a\nLABEL a !\n"),
        CompileError::DuplicateLabel { name: String::from("a") }
    );
    assert_eq!(
        failure("LABEL a\nLABEL \"a\"\n"),
        CompileError::DuplicateLabel { name: String::from("a") }
    );
}

#[test]
fn read_before_assignment() {
    assert_eq!(
        failure("PRINT y\n"),
        CompileError::UndeclaredVariable { name: String::from("y") }
    );
    assert_eq!(
        failure("LET x = 1\nLET z = x + y * w\n"),
        CompileError::UndeclaredVariable { name: String::from("y") }
    );
    assert_eq!(
        failure("LET x = 1\nIF x > q THEN\nENDIF\n"),
        CompileError::UndeclaredVariable { name: String::from("q") }
    );
    assert_eq!(
        failure("PRINT y !\n"),
        CompileError::UndeclaredVariable { name: String::from("y") }
    );
}

#[test]
fn variable_may_be_read_in_its_own_first_assignment() {
    assert_eq!(parts("LET x = x\n", "float x;\n"), "x = x;\n");
}

#[test]
fn lexing_errors_are_reported_as_such() {
    assert_eq!(failure("@"), CompileError::Lexing);
    assert_eq!(failure("LET x = 1.\n"), CompileError::Lexing);
    assert_eq!(failure("PRINT \"50%\"\n"), CompileError::Lexing);
    assert_eq!(failure("LET x = 1\nIF x ! 1 THEN\nENDIF\n"), CompileError::Lexing);
    assert_eq!(failure("PRINT \"a\"\n?"), CompileError::Lexing);
}

#[test]
fn error_in_front_of_a_lexing_error_comes_first() {
    assert_eq!(failure("PRINT )\n"), CompileError::Lexing);
    assert_eq!(failure("LET 5 @\n"), syntax(TokenKind::IDENT, TokenKind::NUMBER, "5"));
    assert_eq!(
        failure("5 @\n"),
        CompileError::InvalidStatement { text: String::from("5"), kind: TokenKind::NUMBER }
    );
}

#[test]
fn syntax_errors() {
    assert_eq!(failure("PRINT 1 2\n"), syntax(TokenKind::NEWLINE, TokenKind::NUMBER, "2"));
    assert_eq!(failure("LET x 5\n"), syntax(TokenKind::EQ, TokenKind::NUMBER, "5"));
    assert_eq!(failure("LET 5 = 5\n"), syntax(TokenKind::IDENT, TokenKind::NUMBER, "5"));
    assert_eq!(failure("GOTO 5\n"), syntax(TokenKind::IDENT, TokenKind::NUMBER, "5"));
    assert_eq!(failure("LABEL IF\n"), syntax(TokenKind::IDENT, TokenKind::IF, "IF"));
    assert_eq!(failure("INPUT \"x\"\n"), syntax(TokenKind::IDENT, TokenKind::STRING, "x"));
    assert_eq!(
        failure("LET a = 1\nIF a > 1 REPEAT\nENDIF\n"),
        syntax(TokenKind::THEN, TokenKind::REPEAT, "REPEAT")
    );
    assert_eq!(
        failure("LET a = 1\nWHILE a > 1 THEN\nENDWHILE\n"),
        syntax(TokenKind::REPEAT, TokenKind::THEN, "THEN")
    );
    assert_eq!(
        failure("LET a = 1\nIF a > 1 THEN PRINT a\nENDIF\n"),
        syntax(TokenKind::NEWLINE, TokenKind::PRINT, "PRINT")
    );
    assert_eq!(
        failure("LET a = 1\nIF a > 1 THEN\nENDIF PRINT a\n"),
        syntax(TokenKind::NEWLINE, TokenKind::PRINT, "PRINT")
    );
}

#[test]
fn invalid_statements() {
    assert_eq!(
        failure("5\n"),
        CompileError::InvalidStatement { text: String::from("5"), kind: TokenKind::NUMBER }
    );
    assert_eq!(
        failure("x = 5\n"),
        CompileError::InvalidStatement { text: String::from("x"), kind: TokenKind::IDENT }
    );
    assert_eq!(
        failure("ENDIF\n"),
        CompileError::InvalidStatement { text: String::from("ENDIF"), kind: TokenKind::ENDIF }
    );
    assert_eq!(
        failure("LET a = 1\nIF a > 1 THEN\nPRINT a\n"),
        CompileError::InvalidStatement { text: String::from("\0"), kind: TokenKind::EOF }
    );
    assert_eq!(
        failure("LET a = 1\nWHILE a > 1 REPEAT\nENDIF\n"),
        CompileError::InvalidStatement { text: String::from("ENDIF"), kind: TokenKind::ENDIF }
    );
}

#[test]
fn operands_must_be_numbers_or_identifiers() {
    assert_eq!(failure("PRINT\n"), CompileError::UnexpectedToken { text: String::from("\n") });
    assert_eq!(
        failure("LET x = 1 +\n"),
        CompileError::UnexpectedToken { text: String::from("\n") }
    );
    assert_eq!(
        failure("LET x = - - 1\n"),
        CompileError::UnexpectedToken { text: String::from("-") }
    );
    assert_eq!(
        failure("LET x = \"one\"\n"),
        CompileError::UnexpectedToken { text: String::from("one") }
    );
    assert_eq!(
        failure("LET x = 1\nIF x > THEN\nENDIF\n"),
        CompileError::UnexpectedToken { text: String::from("THEN") }
    );
}

#[test]
fn condition_needs_a_comparison_operator() {
    assert_eq!(
        failure("LET x = 1\nIF x THEN\nENDIF\n"),
        CompileError::MissingComparison { text: String::from("THEN") }
    );
    assert_eq!(
        failure("LET x = 1\nWHILE x + 1 REPEAT\nENDWHILE\n"),
        CompileError::MissingComparison { text: String::from("REPEAT") }
    );
    assert_eq!(
        failure("LET x = 1\nIF x = 1 THEN\nENDIF\n"),
        CompileError::MissingComparison { text: String::from("=") }
    );
}

#[test]
fn new_fails_when_no_first_token_can_be_read() {
    let lexer = Lexer::build(String::from("  ?"));
    let emitter = Emitter::build(String::from("out.c"));
    assert_eq!(Parser::new(lexer, emitter).err(), Some(CompileError::Lexing));
}

#[test]
fn new_reads_two_tokens() {
    let ready = parser("LET x = 1");
    assert!(ready.check_token(TokenKind::LET));
    assert!(!ready.check_token(TokenKind::IDENT));
    assert!(ready.check_peek(TokenKind::IDENT));
    assert!(!ready.check_peek(TokenKind::LET));
}

#[test]
fn check_peek_is_false_where_the_scanner_fails() {
    let ready = parser("LET ?");
    assert!(ready.check_token(TokenKind::LET));
    assert!(!ready.check_peek(TokenKind::EOF));
    assert!(!ready.check_peek(TokenKind::IDENT));
}

#[test]
fn next_token_moves_by_one() {
    let mut ready = parser("LET x");
    assert_eq!(ready.next_token(), Ok(()));
    assert!(ready.check_token(TokenKind::IDENT));
    assert!(ready.check_peek(TokenKind::NEWLINE));
    assert_eq!(ready.next_token(), Ok(()));
    assert!(ready.check_token(TokenKind::NEWLINE));
    assert!(ready.check_peek(TokenKind::EOF));
    assert_eq!(ready.next_token(), Ok(()));
    assert!(ready.check_token(TokenKind::EOF));
    assert!(ready.check_peek(TokenKind::EOF));
    assert_eq!(ready.next_token(), Ok(()));
    assert!(ready.check_token(TokenKind::EOF));
}

#[test]
fn next_token_fails_at_the_unreadable_token() {
    let mut ready = parser("LET x ?");
    assert_eq!(ready.next_token(), Ok(()));
    assert!(ready.check_token(TokenKind::IDENT));
    assert_eq!(ready.next_token(), Err(CompileError::Lexing));
    assert!(ready.check_token(TokenKind::IDENT));
}

#[test]
fn match_token_reports_both_kinds() {
    let ready = parser("LET x");
    assert_eq!(ready.match_token(TokenKind::LET), Ok(()));
    assert_eq!(
        ready.match_token(TokenKind::IDENT),
        Err(syntax(TokenKind::IDENT, TokenKind::LET, "LET"))
    );
}

#[test]
fn abort_returns_the_error() {
    let ready = parser("");
    assert_eq!(
        ready.abort(CompileError::DuplicateLabel { name: String::from("a") }),
        Err(CompileError::DuplicateLabel { name: String::from("a") })
    );
}

#[test]
fn nl_needs_one_terminator_and_takes_all() {
    let mut ready = parser("\n\n\nLET");
    assert_eq!(ready.nl(), Ok(()));
    assert!(ready.check_token(TokenKind::LET));
    assert_eq!(ready.nl(), Err(syntax(TokenKind::NEWLINE, TokenKind::LET, "LET")));
}

#[test]
fn is_comparison_operator_on_each_kind() {
    for (source, expected) in [
        (">", true),
        (">=", true),
        ("<", true),
        ("<=", true),
        ("==", true),
        ("!=", true),
        ("=", false),
        ("+", false),
        ("x", false),
        ("1", false),
        ("", false),
    ] {
        assert_eq!(parser(source).is_comparison_operator(), expected, "{:?}", source);
    }
}

#[test]
fn rules_write_what_they_read() {
    let mut ready = parser("1 * 2 + 3 < 4 5");
    assert_eq!(ready.primary(), Ok(()));
    assert!(ready.check_token(TokenKind::ASTERISK));
    let mut ready = parser("-1 * 2 + 3 < 4 5");
    assert_eq!(ready.unary(), Ok(()));
    assert!(ready.check_token(TokenKind::ASTERISK));
    let mut ready = parser("1 * 2 / 7 + 3 < 4 5");
    assert_eq!(ready.term(), Ok(()));
    assert!(ready.check_token(TokenKind::PLUS));
    let mut ready = parser("1 * 2 + 3 - 1 < 4 5");
    assert_eq!(ready.expression(), Ok(()));
    assert!(ready.check_token(TokenKind::LT));
    let mut ready = parser("1 * 2 + 3 < 4 5");
    assert_eq!(ready.comparison(), Ok(()));
    assert!(ready.check_token(TokenKind::NUMBER));
    assert!(ready.check_peek(TokenKind::NEWLINE));
}

#[test]
fn statement_takes_one_statement() {
    let mut ready = parser("LET x = 1\n\nPRINT x\nPRINT 2");
    assert_eq!(ready.statement(), Ok(()));
    assert!(ready.check_token(TokenKind::PRINT));
    assert_eq!(ready.statement(), Ok(()));
    assert_eq!(ready.statement(), Ok(()));
    assert!(ready.check_token(TokenKind::EOF));
    assert_eq!(
        ready.statement(),
        Err(CompileError::InvalidStatement { text: String::from("\0"), kind: TokenKind::EOF })
    );
}

#[test]
fn program_returns_the_text_of_the_emitter() {
    let lexer = Lexer::build(String::from("LET x = 5\nPRINT x\n"));
    let mut emitter = Emitter::build(String::from("out.c"));
    emitter.header_line(String::from("/* made by hand */"));
    let mut ready = Parser::new(lexer, emitter).unwrap();
    assert_eq!(
        ready.program().unwrap(),
        "/* made by hand */\n#include <stdio.h>\nint main(void){\nfloat x;\nx = 5;\nprintf(\"%.2f\\n\", (float)(x));\nreturn 0;\n}\n"
    );
}

#[test]
fn statements_before_program_keep_their_output() {
    let mut ready = parser("LET x = 5\nPRINT x\n");
    assert_eq!(ready.statement(), Ok(()));
    assert_eq!(
        ready.program().unwrap(),
        "float x;\n#include <stdio.h>\nint main(void){\nx = 5;\nprintf(\"%.2f\\n\", (float)(x));\nreturn 0;\n}\n"
    );
}

fn names(texts: &[&str]) -> Vec<String> {
    texts.iter().map(|text| String::from(*text)).collect()
}

#[test]
fn tables_and_buffers_can_be_read() {
    let mut ready = parser("LET x = 1\nLABEL a\nGOTO b\nGOTO a\nGOTO b\n");
    assert_eq!(ready.statement(), Ok(()));
    assert_eq!(ready.statement(), Ok(()));
    assert_eq!(ready.statement(), Ok(()));
    assert_eq!(ready.statement(), Ok(()));
    assert_eq!(ready.statement(), Ok(()));
    assert_eq!(ready.symbols(), &names(&["x"]));
    assert_eq!(ready.labels_declared(), &names(&["a"]));
    assert_eq!(ready.labels_gotoed(), &names(&["b", "a"]));
    assert_eq!(
        ready.emitter().finalize(),
        "float x;\nx = 1;\na:\ngoto b;\ngoto a;\ngoto b;\n"
    );
}

#[test]
fn failed_read_of_a_variable_changes_nothing() {
    let mut ready = parser("y + 1");
    assert_eq!(
        ready.primary(),
        Err(CompileError::UndeclaredVariable { name: String::from("y") })
    );
    assert_eq!(ready.emitter().finalize(), "");
    assert_eq!(ready.symbols(), &names(&[]));
    assert!(ready.check_token(TokenKind::IDENT));
    assert!(ready.check_peek(TokenKind::PLUS));
}

#[test]
fn second_declaration_of_a_label_changes_nothing() {
    let mut ready = parser("LABEL A\nLABEL A\n");
    assert_eq!(ready.statement(), Ok(()));
    assert_eq!(ready.emitter().finalize(), "A:\n");
    assert_eq!(
        ready.statement(),
        Err(CompileError::DuplicateLabel { name: String::from("A") })
    );
    assert_eq!(ready.emitter().finalize(), "A:\n");
    assert_eq!(ready.labels_declared(), &names(&["A"]));
    assert!(ready.check_token(TokenKind::IDENT));
}

#[test]
fn invalid_statement_changes_nothing() {
    let mut ready = parser("x = 5\n");
    assert_eq!(
        ready.statement(),
        Err(CompileError::InvalidStatement { text: String::from("x"), kind: TokenKind::IDENT })
    );
    assert_eq!(ready.emitter().finalize(), "");
    assert_eq!(ready.symbols(), &names(&[]));
    assert!(ready.check_token(TokenKind::IDENT));
}

#[test]
fn failure_leaves_what_was_written_before_it() {
    let mut ready = parser("LET x = 1 +\n");
    assert_eq!(
        ready.statement(),
        Err(CompileError::UnexpectedToken { text: String::from("\n") })
    );
    assert_eq!(ready.emitter().finalize(), "float x;\nx = 1+");
    assert_eq!(ready.symbols(), &names(&["x"]));
    assert!(ready.check_token(TokenKind::NEWLINE));
}

#[test]
fn failed_program_keeps_the_state_of_the_failure() {
    let mut ready = parser("GOTO out\n");
    assert_eq!(
        ready.program(),
        Err(CompileError::UndeclaredLabel { name: String::from("out") })
    );
    assert_eq!(
        ready.emitter().finalize(),
        "#include <stdio.h>\nint main(void){\ngoto out;\nreturn 0;\n}\n"
    );
    assert_eq!(ready.labels_gotoed(), &names(&["out"]));
}

#[test]
fn let_writes_the_expression_as_it_stands() {
    let mut ready = parser("LET a = 1\nLET b = -a * 2.50 / a + +3 - a\n\nPRINT b\n");
    assert_eq!(ready.statement(), Ok(()));
    assert_eq!(ready.statement(), Ok(()));
    assert_eq!(ready.symbols(), &names(&["a", "b"]));
    assert_eq!(
        ready.emitter().finalize(),
        "float a;\nfloat b;\na = 1;\nb = -a*2.50/a++3-a;\n"
    );
    assert!(ready.check_token(TokenKind::PRINT));
}
