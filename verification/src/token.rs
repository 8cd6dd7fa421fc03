use vstd::prelude::*;
use vstd::string::*;
use crate::chars::join3;

verus! {

/// The closed set of token categories.
#[allow(non_camel_case_types)]
#[derive(Clone, Copy, Debug, PartialEq, Eq, Structural)]
pub enum TokenKind {
    EOF,
    NEWLINE,
    NUMBER,
    IDENT,
    STRING,
    LABEL,
    GOTO,
    PRINT,
    INPUT,
    LET,
    IF,
    THEN,
    ENDIF,
    WHILE,
    REPEAT,
    ENDWHILE,
    EQ,
    PLUS,
    MINUS,
    ASTERISK,
    SLASH,
    EQEQ,
    NOTEQ,
    LT,
    LTEQ,
    GT,
    GTEQ,
}

/// The name under which a token kind appears in diagnostics.
pub open spec fn kind_name(kind: TokenKind) -> Seq<char> {
    match kind {
        TokenKind::EOF => "EOF"@,
        TokenKind::NEWLINE => "NEWLINE"@,
        TokenKind::NUMBER => "NUMBER"@,
        TokenKind::IDENT => "IDENT"@,
        TokenKind::STRING => "STRING"@,
        TokenKind::LABEL => "LABEL"@,
        TokenKind::GOTO => "GOTO"@,
        TokenKind::PRINT => "PRINT"@,
        TokenKind::INPUT => "INPUT"@,
        TokenKind::LET => "LET"@,
        TokenKind::IF => "IF"@,
        TokenKind::THEN => "THEN"@,
        TokenKind::ENDIF => "ENDIF"@,
        TokenKind::WHILE => "WHILE"@,
        TokenKind::REPEAT => "REPEAT"@,
        TokenKind::ENDWHILE => "ENDWHILE"@,
        TokenKind::EQ => "EQ"@,
        TokenKind::PLUS => "PLUS"@,
        TokenKind::MINUS => "MINUS"@,
        TokenKind::ASTERISK => "ASTERISK"@,
        TokenKind::SLASH => "SLASH"@,
        TokenKind::EQEQ => "EQEQ"@,
        TokenKind::NOTEQ => "NOTEQ"@,
        TokenKind::LT => "LT"@,
        TokenKind::LTEQ => "LTEQ"@,
        TokenKind::GT => "GT"@,
        TokenKind::GTEQ => "GTEQ"@,
    }
}

/// The name under which a token kind appears in diagnostics.
pub fn name_of_kind(kind: TokenKind) -> (name: &'static str)
    ensures
        name@ == kind_name(kind),
{
    match kind {
        TokenKind::EOF => "EOF",
        TokenKind::NEWLINE => "NEWLINE",
        TokenKind::NUMBER => "NUMBER",
        TokenKind::IDENT => "IDENT",
        TokenKind::STRING => "STRING",
        TokenKind::LABEL => "LABEL",
        TokenKind::GOTO => "GOTO",
        TokenKind::PRINT => "PRINT",
        TokenKind::INPUT => "INPUT",
        TokenKind::LET => "LET",
        TokenKind::IF => "IF",
        TokenKind::THEN => "THEN",
        TokenKind::ENDIF => "ENDIF",
        TokenKind::WHILE => "WHILE",
        TokenKind::REPEAT => "REPEAT",
        TokenKind::ENDWHILE => "ENDWHILE",
        TokenKind::EQ => "EQ",
        TokenKind::PLUS => "PLUS",
        TokenKind::MINUS => "MINUS",
        TokenKind::ASTERISK => "ASTERISK",
        TokenKind::SLASH => "SLASH",
        TokenKind::EQEQ => "EQEQ",
        TokenKind::NOTEQ => "NOTEQ",
        TokenKind::LT => "LT",
        TokenKind::LTEQ => "LTEQ",
        TokenKind::GT => "GT",
        TokenKind::GTEQ => "GTEQ",
    }
}

/// The keyword that a lexeme spells, if it spells one. The match is exact and
/// case-sensitive.
pub open spec fn keyword_of(text: Seq<char>) -> Option<TokenKind> {
    if text == "LABEL"@ {
        Some(TokenKind::LABEL)
    } else if text == "GOTO"@ {
        Some(TokenKind::GOTO)
    } else if text == "PRINT"@ {
        Some(TokenKind::PRINT)
    } else if text == "INPUT"@ {
        Some(TokenKind::INPUT)
    } else if text == "LET"@ {
        Some(TokenKind::LET)
    } else if text == "IF"@ {
        Some(TokenKind::IF)
    } else if text == "THEN"@ {
        Some(TokenKind::THEN)
    } else if text == "ENDIF"@ {
        Some(TokenKind::ENDIF)
    } else if text == "WHILE"@ {
        Some(TokenKind::WHILE)
    } else if text == "REPEAT"@ {
        Some(TokenKind::REPEAT)
    } else if text == "ENDWHILE"@ {
        Some(TokenKind::ENDWHILE)
    } else {
        None
    }
}

/// A lexeme together with its category.
pub struct Token {
    pub text: String,
    pub kind: TokenKind,
}

/// What a token is in contracts: its lexeme as a sequence of characters and
/// its category.
pub struct TokenView {
    pub text: Seq<char>,
    pub kind: TokenKind,
}

/// The end-of-file token.
pub open spec fn eof_token() -> TokenView {
    TokenView { text: seq!['\0'], kind: TokenKind::EOF }
}

impl View for Token {
    type V = TokenView;

    open spec fn view(&self) -> TokenView {
        TokenView { text: self.text@, kind: self.kind }
    }
}

impl Clone for Token {
    fn clone(&self) -> (res: Self)
        ensures
            res == *self,
    {
        Token { text: self.text.clone(), kind: self.kind }
    }
}

impl Default for Token {
    /// The end-of-file token with an empty lexeme.
    fn default() -> (res: Self)
        ensures
            res@.text == Seq::<char>::empty(),
            res@.kind == TokenKind::EOF,
    {
        Token { text: String::new(), kind: TokenKind::EOF }
    }
}

fn same_text(text: &String, word: &str) -> (same: bool)
    ensures
        same == (text@ == word@),
{
    let owned = String::from_str(word);
    *text == owned
}

impl Token {
    /// The token as diagnostics show it: the lexeme, a comma, and the name of
    /// the kind.
    pub fn describe(&self) -> (text: String)
        ensures
            text@ == self.text@ + ", "@ + kind_name(self.kind),
    {
        join3(self.text.as_str(), ", ", name_of_kind(self.kind))
    }

    /// Looks a lexeme up in the keyword table.
    pub fn check_if_keyword(token_text: &String) -> (kind: Option<TokenKind>)
        ensures
            kind == keyword_of(token_text@),
    {
        if same_text(token_text, "LABEL") {
            Some(TokenKind::LABEL)
        } else if same_text(token_text, "GOTO") {
            Some(TokenKind::GOTO)
        } else if same_text(token_text, "PRINT") {
            Some(TokenKind::PRINT)
        } else if same_text(token_text, "INPUT") {
            Some(TokenKind::INPUT)
        } else if same_text(token_text, "LET") {
            Some(TokenKind::LET)
        } else if same_text(token_text, "IF") {
            Some(TokenKind::IF)
        } else if same_text(token_text, "THEN") {
            Some(TokenKind::THEN)
        } else if same_text(token_text, "ENDIF") {
            Some(TokenKind::ENDIF)
        } else if same_text(token_text, "WHILE") {
            Some(TokenKind::WHILE)
        } else if same_text(token_text, "REPEAT") {
            Some(TokenKind::REPEAT)
        } else if same_text(token_text, "ENDWHILE") {
            Some(TokenKind::ENDWHILE)
        } else {
            None
        }
    }
}

} // verus!
