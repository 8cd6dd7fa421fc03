//! The parser: it reads tokens from the scanner one by one and writes the C
//! text of each rule of the grammar as soon as it has recognised the rule.
use vstd::prelude::*;
use vstd::string::*;
use crate::chars::{join, join3};
use crate::emitter::Emitter;
use crate::error::CompileError;
use crate::grammar::{
    Compilation, Pass, first_missing, is_comparison, lemma_block_follows,
    lemma_condition_follows, lemma_expression_follows, lemma_failure_is_final,
    lemma_push_keeps_distinct, lemma_statement_follows, lemma_steps_follow, lemma_term_follows,
    lemma_unary_follows,
};
use crate::lexer::{Ahead, Lexer, ahead, lemma_scan_at_end, lemma_scan_progress};
use crate::token::{Token, TokenKind, eof_token};

verus! {

/// The names that a table holds, in its order.
pub open spec fn texts(names: Seq<String>) -> Seq<Seq<char>> {
    names.map_values(|name: String| name@)
}

/// A step that was to lead to `pass` returned `result` and left the
/// compilation in `state`: the state of `pass` in either case, with success
/// where `pass` goes on and with its failure as the error where it failed.
pub open spec fn reached(pass: Pass, result: Result<(), CompileError>, state: Compilation) -> bool {
    match pass {
        Pass::Going(s) => result is Ok && state == s,
        Pass::Failed(s, f) => result is Err && result->Err_0@ == f && state == s,
    }
}

/// Whether `name` is in the table.
fn holds(names: &Vec<String>, name: &String) -> (found: bool)
    ensures
        found == texts(names@).contains(name@),
{
    let mut i: usize = 0;
    while i < names.len()
        invariant
            i <= names.len(),
            forall|j: int| 0 <= j < i ==> texts(names@)[j] != name@,
        decreases names.len() - i,
    {
        if names[i] == *name {
            assert(texts(names@)[i as int] == name@);
            return true;
        }
        i += 1;
    }
    false
}

/// A compilation: the scanner with the two tokens read ahead of it, the
/// emitter, and the tables of variables and labels.
pub struct Parser {
    cur_token: Token,
    peek_token: Option<Token>,
    lexer: Lexer,
    emitter: Emitter,
    symbols: Vec<String>,
    labels_gotoed: Vec<String>,
    labels_declared: Vec<String>,
}

impl View for Parser {
    type V = Compilation;

    /// The tokens ahead are the current one, the one read behind it and
    /// those that the scanner will read; the buffers are the emitter's.
    closed spec fn view(&self) -> Compilation {
        let behind = self.behind();
        Compilation {
            tokens: if self.cur_token.kind == TokenKind::EOF {
                Seq::empty()
            } else {
                seq![self.cur_token@] + behind.tokens
            },
            complete: self.cur_token.kind == TokenKind::EOF || behind.complete,
            header: self.emitter@.header,
            code: self.emitter@.code,
            symbols: texts(self.symbols@),
            declared: texts(self.labels_declared@),
            gotoed: texts(self.labels_gotoed@),
        }
    }
}

impl Parser {
    /// What follows the current token.
    closed spec fn behind(&self) -> Ahead {
        match self.peek_token {
            None => Ahead { tokens: Seq::empty(), complete: false },
            Some(token) => if token.kind == TokenKind::EOF {
                Ahead { tokens: Seq::empty(), complete: true }
            } else {
                let rest = ahead(self.lexer.source@, self.lexer.cur_pos as int);
                Ahead { tokens: seq![token@] + rest.tokens, complete: rest.complete }
            },
        }
    }

    /// The scanner is well formed, the end of the text is followed by itself,
    /// and no table holds a name twice.
    pub closed spec fn wf(&self) -> bool {
        &&& self.lexer.wf()
        &&& self.cur_token.kind == TokenKind::EOF ==> self.cur_token@ == eof_token()
            && self.peek_token is Some && self.peek_token->0.kind == TokenKind::EOF
        &&& self.peek_token is Some && self.peek_token->0.kind == TokenKind::EOF
            ==> self.peek_token->0@ == eof_token() && self.lexer.cur_pos
            >= self.lexer.source.len()
        &&& texts(self.symbols@).no_duplicates()
        &&& texts(self.labels_declared@).no_duplicates()
        &&& texts(self.labels_gotoed@).no_duplicates()
    }

    /// In a well-formed parser a token is ahead or the end of the text is
    /// reached, and no table holds a name twice.
    pub proof fn lemma_wf(&self)
        requires
            self.wf(),
        ensures
            self@.tokens.len() > 0 || self@.complete,
            self@.symbols.no_duplicates(),
            self@.declared.no_duplicates(),
            self@.gotoed.no_duplicates(),
    {
    }

    /// A parser on what `lexer` has still to read, writing to `emitter`,
    /// with nothing declared. The first two tokens are read; this fails when
    /// the scanner cannot read the first one.
    pub fn new(lexer: Lexer, emitter: Emitter) -> (result: Result<Parser, CompileError>)
        requires
            lexer.wf(),
        ensures
            match Pass::start(
                ahead(lexer.source@, lexer.cur_pos as int).tokens,
                ahead(lexer.source@, lexer.cur_pos as int).complete,
                emitter@.header,
                emitter@.code,
            ) {
                Pass::Going(s) => result is Ok && result->Ok_0.wf() && result->Ok_0@ == s,
                Pass::Failed(_, f) => result is Err && result->Err_0@ == f,
            },
    {
        let ghost src = lexer.source@;
        let ghost start = lexer.cur_pos as int;
        let mut lexer = lexer;
        proof {
            lemma_scan_progress(src, start);
        }
        let cur_token = match lexer.get_token() {
            Ok(token) => token,
            Err(_) => {
                return Err(CompileError::Lexing);
            },
        };
        let ghost middle = lexer.cur_pos as int;
        proof {
            lemma_scan_progress(src, middle);
            if middle >= src.len() {
                lemma_scan_at_end(src, middle);
            }
        }
        let peek_token = match lexer.get_token() {
            Ok(token) => Some(token),
            Err(_) => None,
        };
        let parser = Parser {
            cur_token,
            peek_token,
            lexer,
            emitter,
            symbols: Vec::new(),
            labels_gotoed: Vec::new(),
            labels_declared: Vec::new(),
        };
        assert(texts(parser.symbols@) =~= Seq::<Seq<char>>::empty());
        assert(texts(parser.labels_gotoed@) =~= Seq::<Seq<char>>::empty());
        assert(texts(parser.labels_declared@) =~= Seq::<Seq<char>>::empty());
        proof {
            if parser.cur_token.kind != TokenKind::EOF {
                let rest = ahead(src, middle);
                assert(rest.tokens =~= parser.behind().tokens);
                assert(rest.complete == parser.behind().complete);
                assert(ahead(src, start).tokens =~= seq![parser.cur_token@] + rest.tokens);
            }
            assert(parser@.tokens =~= ahead(src, start).tokens);
        }
        Ok(parser)
    }

    /// The emitter, with what has been written so far.
    pub fn emitter(&self) -> (emitter: &Emitter)
        ensures
            emitter@.header == self@.header,
            emitter@.code == self@.code,
    {
        &self.emitter
    }

    /// The variables declared so far, in the order of their declaration.
    pub fn symbols(&self) -> (names: &Vec<String>)
        ensures
            texts(names@) == self@.symbols,
    {
        &self.symbols
    }

    /// The labels declared so far.
    pub fn labels_declared(&self) -> (names: &Vec<String>)
        ensures
            texts(names@) == self@.declared,
    {
        &self.labels_declared
    }

    /// The labels that jumps have named so far.
    pub fn labels_gotoed(&self) -> (names: &Vec<String>)
        ensures
            texts(names@) == self@.gotoed,
    {
        &self.labels_gotoed
    }

    /// Whether the current token is of kind `kind`.
    pub fn check_token(&self, kind: TokenKind) -> (same: bool)
        requires
            self.wf(),
        ensures
            same == (self@.current().kind == kind),
    {
        kind == self.cur_token.kind
    }

    /// Whether the token behind the current one could be read and is of kind
    /// `kind`.
    pub fn check_peek(&self, kind: TokenKind) -> (same: bool)
        requires
            self.wf(),
        ensures
            same == (self@.peek() matches Some(token) && token.kind == kind),
    {
        match &self.peek_token {
            Some(token) => kind == token.kind,
            None => false,
        }
    }

    /// Fails unless the current token is of kind `kind`.
    pub fn match_token(&self, kind: TokenKind) -> (result: Result<(), CompileError>)
        requires
            self.wf(),
        ensures
            reached(Pass::Going(self@).expect(kind), result, self@),
    {
        if !self.check_token(kind) {
            return self.abort(
                CompileError::Syntax {
                    expected: kind,
                    found: self.cur_token.kind,
                    text: self.cur_token.text.clone(),
                },
            );
        }
        Ok(())
    }

    /// Moves to the next token and reads one more from the scanner. This
    /// fails where the scanner could not read the token that is to become the
    /// current one.
    pub fn next_token(&mut self) -> (result: Result<(), CompileError>)
        requires
            old(self).wf(),
        ensures
            final(self).wf(),
            reached(Pass::Going(old(self)@).advance(), result, final(self)@),
    {
        let next = match &self.peek_token {
            Some(token) => token.clone(),
            None => {
                return Err(CompileError::Lexing);
            },
        };
        proof {
            lemma_scan_progress(self.lexer.source@, self.lexer.cur_pos as int);
            if self.lexer.cur_pos >= self.lexer.source.len() {
                lemma_scan_at_end(self.lexer.source@, self.lexer.cur_pos as int);
            }
        }
        self.cur_token = next;
        self.peek_token = match self.lexer.get_token() {
            Ok(token) => Some(token),
            Err(_) => None,
        };
        proof {
            let before = old(self)@;
            if before.tokens.len() > 0 {
                assert(before.tokens.drop_first() =~= self@.tokens);
            }
        }
        Ok(())
    }

    /// The lexeme of the current token.
    fn current_text(&self) -> (text: String)
        requires
            self.wf(),
        ensures
            text@ == Pass::Going(self@).text(),
    {
        self.cur_token.text.clone()
    }

    /// Appends `text` to the body.
    fn emit(&mut self, text: String)
        requires
            old(self).wf(),
        ensures
            final(self).wf(),
            Pass::Going(final(self)@) == Pass::Going(old(self)@).emit(text@),
    {
        self.emitter.emit(text);
    }

    /// Appends `text` and a line terminator to the body.
    fn emit_line(&mut self, text: String)
        requires
            old(self).wf(),
        ensures
            final(self).wf(),
            Pass::Going(final(self)@) == Pass::Going(old(self)@).emit_line(text@),
    {
        self.emitter.emit_line(text);
    }

    /// Appends `text` and a line terminator to the header.
    fn header_line(&mut self, text: String)
        requires
            old(self).wf(),
        ensures
            final(self).wf(),
            Pass::Going(final(self)@) == Pass::Going(old(self)@).header_line(text@),
    {
        self.emitter.header_line(text);
    }

    /// Appends the lexeme of the current token to the body.
    fn emit_current(&mut self)
        requires
            old(self).wf(),
        ensures
            final(self).wf(),
            Pass::Going(final(self)@) == Pass::Going(old(self)@).emit_current(),
    {
        let text = self.current_text();
        self.emit(text);
    }

    /// Declares the variable `name` unless it is declared already.
    fn declare_variable(&mut self, name: String)
        requires
            old(self).wf(),
        ensures
            final(self).wf(),
            Pass::Going(final(self)@) == Pass::Going(old(self)@).declare_variable(name@),
    {
        if !holds(&self.symbols, &name) {
            let line = join3("float ", name.as_str(), ";");
            proof {
                lemma_push_keeps_distinct(texts(self.symbols@), name@);
                assert(texts(self.symbols@.push(name)) =~= texts(self.symbols@).push(name@));
            }
            self.symbols.push(name);
            self.emitter.header_line(line);
        }
    }

    /// Declares the label `name`, which fails if it is declared already.
    fn declare_label(&mut self, name: String) -> (result: Result<(), CompileError>)
        requires
            old(self).wf(),
        ensures
            final(self).wf(),
            reached(Pass::Going(old(self)@).declare_label(name@), result, final(self)@),
    {
        if holds(&self.labels_declared, &name) {
            return self.abort(CompileError::DuplicateLabel { name });
        }
        proof {
            lemma_push_keeps_distinct(texts(self.labels_declared@), name@);
            assert(texts(self.labels_declared@.push(name)) =~= texts(self.labels_declared@).push(
                name@,
            ));
        }
        self.labels_declared.push(name);
        Ok(())
    }

    /// Records that a jump names the label `name`.
    fn reference_label(&mut self, name: String)
        requires
            old(self).wf(),
        ensures
            final(self).wf(),
            Pass::Going(final(self)@) == Pass::Going(old(self)@).reference_label(name@),
    {
        if !holds(&self.labels_gotoed, &name) {
            proof {
                lemma_push_keeps_distinct(texts(self.labels_gotoed@), name@);
                assert(texts(self.labels_gotoed@.push(name)) =~= texts(self.labels_gotoed@).push(
                    name@,
                ));
            }
            self.labels_gotoed.push(name);
        }
    }

    /// The first label that a jump names and the program does not declare.
    fn undeclared_label(&self) -> (missing: Option<String>)
        requires
            self.wf(),
        ensures
            match first_missing(self@.gotoed, self@.declared) {
                Some(name) => missing is Some && missing->0@ == name,
                None => missing is None,
            },
    {
        let ghost all = texts(self.labels_gotoed@);
        let ghost known = texts(self.labels_declared@);
        let mut i: usize = 0;
        assert(all.skip(0) =~= all);
        while i < self.labels_gotoed.len()
            invariant
                i <= self.labels_gotoed.len(),
                all == texts(self.labels_gotoed@),
                known == texts(self.labels_declared@),
                first_missing(all, known) == first_missing(all.skip(i as int), known),
            decreases self.labels_gotoed.len() - i,
        {
            assert(all.skip(i as int)[0] == self.labels_gotoed[i as int]@);
            assert(all.skip(i as int).drop_first() =~= all.skip(i + 1));
            if !holds(&self.labels_declared, &self.labels_gotoed[i]) {
                return Some(self.labels_gotoed[i].clone());
            }
            i += 1;
        }
        None
    }

    /// `nl ::= NEWLINE {NEWLINE}`
    pub fn nl(&mut self) -> (result: Result<(), CompileError>)
        requires
            old(self).wf(),
        ensures
            final(self).wf(),
            reached(Pass::Going(old(self)@).nl(), result, final(self)@),
    {
        self.match_token(TokenKind::NEWLINE)?;
        self.skip_newlines()
    }

    /// `{NEWLINE}`
    fn skip_newlines(&mut self) -> (result: Result<(), CompileError>)
        requires
            old(self).wf(),
        ensures
            final(self).wf(),
            reached(Pass::Going(old(self)@).skip_newlines(), result, final(self)@),
    {
        while self.check_token(TokenKind::NEWLINE)
            invariant
                self.wf(),
                Pass::Going(self@).skip_newlines() == Pass::Going(old(self)@).skip_newlines(),
            decreases self@.tokens.len(),
        {
            proof {
                lemma_steps_follow(Pass::Going(self@));
                if Pass::Going(self@).advance() is Failed {
                    lemma_failure_is_final(Pass::Going(self@).advance());
                }
            }
            self.next_token()?;
        }
        Ok(())
    }

    /// `primary ::= NUMBER | IDENT`. The token is written to the body; an
    /// identifier must be a declared variable.
    pub fn primary(&mut self) -> (result: Result<(), CompileError>)
        requires
            old(self).wf(),
        ensures
            final(self).wf(),
            reached(Pass::Going(old(self)@).primary(), result, final(self)@),
    {
        if self.check_token(TokenKind::NUMBER) {
            self.emit_current();
            self.next_token()
        } else if self.check_token(TokenKind::IDENT) {
            if !holds(&self.symbols, &self.cur_token.text) {
                return self.abort(
                    CompileError::UndeclaredVariable { name: self.current_text() },
                );
            }
            self.emit_current();
            self.next_token()
        } else {
            self.abort(CompileError::UnexpectedToken { text: self.current_text() })
        }
    }

    /// `unary ::= ["+" | "-"] primary`
    pub fn unary(&mut self) -> (result: Result<(), CompileError>)
        requires
            old(self).wf(),
        ensures
            final(self).wf(),
            reached(Pass::Going(old(self)@).unary(), result, final(self)@),
    {
        if self.check_token(TokenKind::PLUS) || self.check_token(TokenKind::MINUS) {
            self.emit_current();
            self.next_token()?;
        }
        self.primary()
    }

    /// `term ::= unary {("*" | "/") unary}`
    pub fn term(&mut self) -> (result: Result<(), CompileError>)
        requires
            old(self).wf(),
        ensures
            final(self).wf(),
            reached(Pass::Going(old(self)@).term(), result, final(self)@),
    {
        self.unary()?;
        while self.check_token(TokenKind::ASTERISK) || self.check_token(TokenKind::SLASH)
            invariant
                self.wf(),
                Pass::Going(self@).more_factors() == Pass::Going(old(self)@).term(),
            decreases self@.tokens.len(),
        {
            proof {
                let p = Pass::Going(self@);
                lemma_steps_follow(p);
                lemma_steps_follow(p.emit_current());
                lemma_unary_follows(p.emit_current().advance());
                if p.emit_current().advance() is Failed {
                    lemma_failure_is_final(p.emit_current().advance());
                }
                if p.emit_current().advance().unary() is Failed {
                    lemma_failure_is_final(p.emit_current().advance().unary());
                }
            }
            self.emit_current();
            self.next_token()?;
            self.unary()?;
        }
        Ok(())
    }

    /// `expression ::= term {("+" | "-") term}`
    pub fn expression(&mut self) -> (result: Result<(), CompileError>)
        requires
            old(self).wf(),
        ensures
            final(self).wf(),
            reached(Pass::Going(old(self)@).expression(), result, final(self)@),
    {
        self.term()?;
        while self.check_token(TokenKind::PLUS) || self.check_token(TokenKind::MINUS)
            invariant
                self.wf(),
                Pass::Going(self@).more_terms() == Pass::Going(old(self)@).expression(),
            decreases self@.tokens.len(),
        {
            proof {
                let p = Pass::Going(self@);
                lemma_steps_follow(p);
                lemma_steps_follow(p.emit_current());
                lemma_term_follows(p.emit_current().advance());
                if p.emit_current().advance() is Failed {
                    lemma_failure_is_final(p.emit_current().advance());
                }
                if p.emit_current().advance().term() is Failed {
                    lemma_failure_is_final(p.emit_current().advance().term());
                }
            }
            self.emit_current();
            self.next_token()?;
            self.term()?;
        }
        Ok(())
    }

    /// Whether the current token is one of `>`, `>=`, `<`, `<=`, `==`,
    /// `!=`.
    pub fn is_comparison_operator(&self) -> (found: bool)
        requires
            self.wf(),
        ensures
            found == is_comparison(self@.current().kind),
    {
        self.check_token(TokenKind::GT) || self.check_token(TokenKind::GTEQ) || self.check_token(
            TokenKind::LT,
        ) || self.check_token(TokenKind::LTEQ) || self.check_token(TokenKind::EQEQ)
            || self.check_token(TokenKind::NOTEQ)
    }

    /// `comparison ::= expression compare expression {compare expression}`
    pub fn comparison(&mut self) -> (result: Result<(), CompileError>)
        requires
            old(self).wf(),
        ensures
            final(self).wf(),
            reached(Pass::Going(old(self)@).comparison(), result, final(self)@),
    {
        self.expression()?;
        if self.is_comparison_operator() {
            self.emit_current();
            self.next_token()?;
            self.expression()?;
        } else {
            return self.abort(CompileError::MissingComparison { text: self.current_text() });
        }
        while self.is_comparison_operator()
            invariant
                self.wf(),
                Pass::Going(self@).more_comparisons() == Pass::Going(old(self)@).comparison(),
            decreases self@.tokens.len(),
        {
            proof {
                let p = Pass::Going(self@);
                lemma_steps_follow(p);
                lemma_steps_follow(p.emit_current());
                lemma_expression_follows(p.emit_current().advance());
                if p.emit_current().advance() is Failed {
                    lemma_failure_is_final(p.emit_current().advance());
                }
                if p.emit_current().advance().expression() is Failed {
                    lemma_failure_is_final(p.emit_current().advance().expression());
                }
            }
            self.emit_current();
            self.next_token()?;
            self.expression()?;
        }
        Ok(())
    }

    /// `PRINT (STRING | expression)`, with the keyword passed already.
    fn print_rest(&mut self) -> (result: Result<(), CompileError>)
        requires
            old(self).wf(),
        ensures
            final(self).wf(),
            reached(Pass::Going(old(self)@).print_rest(), result, final(self)@),
    {
        if self.check_token(TokenKind::STRING) {
            let line = join3("printf(\"", self.cur_token.text.as_str(), "\\n\");");
            self.emit_line(line);
            self.next_token()
        } else {
            proof {
                let p = Pass::Going(self@).emit("printf(\"%.2f\\n\", (float)("@);
                if p.expression() is Failed {
                    lemma_failure_is_final(p.expression());
                }
            }
            self.emit(String::from_str("printf(\"%.2f\\n\", (float)("));
            self.expression()?;
            self.emit_line(String::from_str("));"));
            Ok(())
        }
    }

    /// `LABEL IDENT`, with the keyword passed already.
    fn label_rest(&mut self) -> (result: Result<(), CompileError>)
        requires
            old(self).wf(),
        ensures
            final(self).wf(),
            reached(Pass::Going(old(self)@).label_rest(), result, final(self)@),
    {
        let name = self.current_text();
        let line = join(name.as_str(), ":");
        self.declare_label(name)?;
        self.emit_line(line);
        self.match_token(TokenKind::IDENT)?;
        self.next_token()
    }

    /// `GOTO IDENT`, with the keyword passed already.
    fn goto_rest(&mut self) -> (result: Result<(), CompileError>)
        requires
            old(self).wf(),
        ensures
            final(self).wf(),
            reached(Pass::Going(old(self)@).goto_rest(), result, final(self)@),
    {
        let name = self.current_text();
        let line = join3("goto ", name.as_str(), ";");
        self.reference_label(name);
        self.emit_line(line);
        self.match_token(TokenKind::IDENT)?;
        self.next_token()
    }

    /// `LET IDENT EQ expression`, with the keyword passed already.
    fn let_rest(&mut self) -> (result: Result<(), CompileError>)
        requires
            old(self).wf(),
        ensures
            final(self).wf(),
            reached(Pass::Going(old(self)@).let_rest(), result, final(self)@),
    {
        let name = self.current_text();
        let target = join(name.as_str(), " = ");
        proof {
            let p = Pass::Going(self@);
            let a = p.declare_variable(name@).emit(target@).expect(TokenKind::IDENT);
            if a is Failed {
                lemma_failure_is_final(a);
            }
            if a.advance() is Failed {
                lemma_failure_is_final(a.advance());
            }
            let b = a.advance().expect(TokenKind::EQ);
            if b is Failed {
                lemma_failure_is_final(b);
            }
            if b.advance() is Failed {
                lemma_failure_is_final(b.advance());
            }
            if b.advance().expression() is Failed {
                lemma_failure_is_final(b.advance().expression());
            }
        }
        self.declare_variable(name);
        self.emit(target);
        self.match_token(TokenKind::IDENT)?;
        self.next_token()?;
        self.match_token(TokenKind::EQ)?;
        self.next_token()?;
        self.expression()?;
        self.emit_line(String::from_str(";"));
        Ok(())
    }

    /// `INPUT IDENT`, with the keyword passed already.
    fn input_rest(&mut self) -> (result: Result<(), CompileError>)
        requires
            old(self).wf(),
        ensures
            final(self).wf(),
            reached(Pass::Going(old(self)@).input_rest(), result, final(self)@),
    {
        let name = self.current_text();
        let read = join3("if(0 == scanf(\"%f\", &", name.as_str(), ")) {");
        let reset = join(name.as_str(), " = 0;");
        self.declare_variable(name);
        self.emit_line(read);
        self.emit_line(reset);
        self.emit(String::from_str("scanf(\"%"));
        self.emit_line(String::from_str("*s\");"));
        self.emit_line(String::from_str("}"));
        self.match_token(TokenKind::IDENT)?;
        self.next_token()
    }

    /// `comparison opener nl`, with `brace` written behind the condition.
    fn condition(&mut self, opener: TokenKind, brace: &str) -> (result: Result<
        (),
        CompileError,
    >)
        requires
            old(self).wf(),
        ensures
            final(self).wf(),
            reached(Pass::Going(old(self)@).condition(opener, brace@), result, final(self)@),
    {
        proof {
            let a = Pass::Going(self@).comparison();
            if a is Failed {
                lemma_failure_is_final(a);
            }
            let b = a.expect(opener);
            if b is Failed {
                lemma_failure_is_final(b);
            }
            if b.advance() is Failed {
                lemma_failure_is_final(b.advance());
            }
            if b.advance().nl() is Failed {
                lemma_failure_is_final(b.advance().nl());
            }
        }
        self.comparison()?;
        self.match_token(opener)?;
        self.next_token()?;
        self.nl()?;
        self.emit_line(String::from_str(brace));
        Ok(())
    }

    /// `{statement}`, up to a token of kind `end`.
    fn block(&mut self, end: TokenKind) -> (result: Result<(), CompileError>)
        requires
            old(self).wf(),
        ensures
            final(self).wf(),
            reached(Pass::Going(old(self)@).block(end), result, final(self)@),
        decreases old(self)@.tokens.len(), 1nat,
    {
        while !self.check_token(end)
            invariant
                self.wf(),
                Pass::Going(self@).block(end) == Pass::Going(old(self)@).block(end),
                self@.tokens.len() <= old(self)@.tokens.len(),
            decreases self@.tokens.len(),
        {
            proof {
                let p = Pass::Going(self@);
                lemma_block_follows(p, end);
                lemma_statement_follows(p);
                if p.statement() is Failed {
                    lemma_failure_is_final(p.statement());
                }
            }
            self.statement()?;
        }
        Ok(())
    }

    /// `{statement} end`, with a closing brace written for `end`.
    fn block_and_end(&mut self, end: TokenKind) -> (result: Result<(), CompileError>)
        requires
            old(self).wf(),
        ensures
            final(self).wf(),
            reached(Pass::Going(old(self)@).block_and_end(end), result, final(self)@),
        decreases old(self)@.tokens.len(), 2nat,
    {
        proof {
            let a = Pass::Going(self@).block(end);
            if a is Failed {
                lemma_failure_is_final(a);
            }
            if a.expect(end) is Failed {
                lemma_failure_is_final(a.expect(end));
            }
        }
        self.block(end)?;
        self.match_token(end)?;
        self.emit_line(String::from_str("}"));
        self.next_token()
    }

    /// One statement with the line terminators behind it.
    pub fn statement(&mut self) -> (result: Result<(), CompileError>)
        requires
            old(self).wf(),
        ensures
            final(self).wf(),
            reached(Pass::Going(old(self)@).statement(), result, final(self)@),
        decreases old(self)@.tokens.len(), 0nat,
    {
        let ghost p = Pass::Going(self@);
        let ghost next = p.advance();
        proof {
            lemma_steps_follow(p);
            if next is Failed {
                lemma_failure_is_final(next);
            }
        }
        if self.check_token(TokenKind::PRINT) {
            proof {
                if next.print_rest() is Failed {
                    lemma_failure_is_final(next.print_rest());
                }
            }
            self.next_token()?;
            self.print_rest()?;
        } else if self.check_token(TokenKind::IF) {
            proof {
                let head = next.emit("if("@).condition(TokenKind::THEN, "}{"@);
                lemma_steps_follow(next);
                lemma_condition_follows(next.emit("if("@), TokenKind::THEN, "}{"@);
                if head is Failed {
                    lemma_failure_is_final(head);
                }
                if head.block_and_end(TokenKind::ENDIF) is Failed {
                    lemma_failure_is_final(head.block_and_end(TokenKind::ENDIF));
                }
            }
            self.next_token()?;
            self.emit(String::from_str("if("));
            self.condition(TokenKind::THEN, "}{")?;
            self.block_and_end(TokenKind::ENDIF)?;
        } else if self.check_token(TokenKind::WHILE) {
            proof {
                let head = next.emit("while("@).condition(TokenKind::REPEAT, "){"@);
                lemma_steps_follow(next);
                lemma_condition_follows(next.emit("while("@), TokenKind::REPEAT, "){"@);
                if head is Failed {
                    lemma_failure_is_final(head);
                }
                if head.block_and_end(TokenKind::ENDWHILE) is Failed {
                    lemma_failure_is_final(head.block_and_end(TokenKind::ENDWHILE));
                }
            }
            self.next_token()?;
            self.emit(String::from_str("while("));
            self.condition(TokenKind::REPEAT, "){")?;
            self.block_and_end(TokenKind::ENDWHILE)?;
        } else if self.check_token(TokenKind::LABEL) {
            proof {
                if next.label_rest() is Failed {
                    lemma_failure_is_final(next.label_rest());
                }
            }
            self.next_token()?;
            self.label_rest()?;
        } else if self.check_token(TokenKind::GOTO) {
            proof {
                if next.goto_rest() is Failed {
                    lemma_failure_is_final(next.goto_rest());
                }
            }
            self.next_token()?;
            self.goto_rest()?;
        } else if self.check_token(TokenKind::LET) {
            proof {
                if next.let_rest() is Failed {
                    lemma_failure_is_final(next.let_rest());
                }
            }
            self.next_token()?;
            self.let_rest()?;
        } else if self.check_token(TokenKind::INPUT) {
            proof {
                if next.input_rest() is Failed {
                    lemma_failure_is_final(next.input_rest());
                }
            }
            self.next_token()?;
            self.input_rest()?;
        } else {
            return self.abort(
                CompileError::InvalidStatement {
                    text: self.current_text(),
                    kind: self.cur_token.kind,
                },
            );
        }
        self.nl()
    }

    /// `program ::= {NEWLINE} {statement}`: translates the whole program and
    /// returns the finished text, the header followed by the body. Every label
    /// that a jump names must be declared somewhere in the program.
    pub fn program(&mut self) -> (result: Result<String, CompileError>)
        requires
            old(self).wf(),
        ensures
            final(self).wf(),
            match Pass::Going(old(self)@).program() {
                Pass::Going(s) => result is Ok && result->Ok_0@ == s.output() && final(self)@
                    == s,
                Pass::Failed(s, f) => result is Err && result->Err_0@ == f && final(self)@
                    == s,
            },
    {
        proof {
            let a = Pass::Going(self@).header_line("#include <stdio.h>"@).header_line(
                "int main(void){"@,
            ).skip_newlines();
            if a is Failed {
                lemma_failure_is_final(a);
            }
            if a.block(TokenKind::EOF) is Failed {
                lemma_failure_is_final(a.block(TokenKind::EOF));
                assert(Pass::Going(self@).program_body() == a.block(TokenKind::EOF));
            }
        }
        self.header_line(String::from_str("#include <stdio.h>"));
        self.header_line(String::from_str("int main(void){"));
        match self.skip_newlines() {
            Ok(()) => {},
            Err(error) => {
                return Err(error);
            },
        }
        match self.block(TokenKind::EOF) {
            Ok(()) => {},
            Err(error) => {
                return Err(error);
            },
        }
        self.emit_line(String::from_str("return 0;"));
        self.emit_line(String::from_str("}"));
        match self.undeclared_label() {
            Some(name) => Err(CompileError::UndeclaredLabel { name }),
            None => Ok(self.emitter.finalize()),
        }
    }

    /// Ends the compilation with `error`.
    pub fn abort(&self, error: CompileError) -> (result: Result<(), CompileError>)
        ensures
            result == Err::<(), CompileError>(error),
    {
        Err(error)
    }
}

} // verus!
