//! The language and its translation, as a function on tokens.
//!
//! ```text
//! program    ::= {NEWLINE} {statement}
//! statement  ::= PRINT (STRING | expression) nl
//!              | IF comparison THEN nl {statement} ENDIF nl
//!              | WHILE comparison REPEAT nl {statement} ENDWHILE nl
//!              | LABEL IDENT nl
//!              | GOTO IDENT nl
//!              | LET IDENT EQ expression nl
//!              | INPUT IDENT nl
//! comparison ::= expression compare expression {compare expression}
//! expression ::= term {("+" | "-") term}
//! term       ::= unary {("*" | "/") unary}
//! unary      ::= ["+" | "-"] primary
//! primary    ::= NUMBER | IDENT
//! nl         ::= NEWLINE {NEWLINE}
//! ```
//!
//! Each rule is a step from one state of the compilation to the next: it
//! takes tokens from the front of those ahead and appends C text to the
//! buffers.
use vstd::prelude::*;
use crate::error::Failure;
use crate::token::{TokenKind, TokenView, eof_token};

verus! {

/// One of `>`, `>=`, `<`, `<=`, `==`, `!=`.
pub open spec fn is_comparison(kind: TokenKind) -> bool {
    kind == TokenKind::GT || kind == TokenKind::GTEQ || kind == TokenKind::LT || kind
        == TokenKind::LTEQ || kind == TokenKind::EQEQ || kind == TokenKind::NOTEQ
}

/// The first of `names` that is not among `known`, if there is one.
pub open spec fn first_missing(names: Seq<Seq<char>>, known: Seq<Seq<char>>) -> Option<
    Seq<char>,
>
    decreases names.len(),
{
    if names.len() == 0 {
        None
    } else if !known.contains(names[0]) {
        Some(names[0])
    } else {
        first_missing(names.drop_first(), known)
    }
}

/// The state of a compilation between two steps.
pub struct Compilation {
    /// The tokens that are still to be read, the current one first, up to
    /// the end of the text or to the place where the scanner fails.
    pub tokens: Seq<TokenView>,
    /// Whether the end of the text follows `tokens`; if not, the scanner
    /// fails there.
    pub complete: bool,
    /// The header region of the output.
    pub header: Seq<char>,
    /// The body region of the output.
    pub code: Seq<char>,
    /// The variables declared so far, in the order of their declaration.
    pub symbols: Seq<Seq<char>>,
    /// The labels declared so far.
    pub declared: Seq<Seq<char>>,
    /// The labels that jumps have named so far.
    pub gotoed: Seq<Seq<char>>,
}

/// The two lines with which every generated program starts.
pub open spec fn prologue() -> Seq<char> {
    "#include <stdio.h>"@.push('\n') + "int main(void){"@.push('\n')
}

/// The line that declares the variable `name`.
pub open spec fn declaration(name: Seq<char>) -> Seq<char> {
    ("float "@ + name + ";"@).push('\n')
}

/// The lines that declare the variables `names`, in that order.
pub open spec fn declarations(names: Seq<Seq<char>>) -> Seq<char>
    decreases names.len(),
{
    if names.len() == 0 {
        Seq::empty()
    } else {
        declarations(names.drop_last()) + declaration(names.last())
    }
}

/// The lexemes of `tokens`, one behind the other with nothing between them.
pub open spec fn lexemes(tokens: Seq<TokenView>) -> Seq<char>
    decreases tokens.len(),
{
    if tokens.len() == 0 {
        Seq::empty()
    } else {
        lexemes(tokens.drop_last()) + tokens.last().text
    }
}

impl Compilation {
    /// Whether `later` comes from this state by taking tokens from the front
    /// and writing the lexeme of each to the body: nothing else is written,
    /// and the header and the tables are as they were.
    pub open spec fn echoes_to(self, later: Compilation) -> bool {
        let read = self.tokens.len() - later.tokens.len();
        &&& read >= 0
        &&& later.tokens == self.tokens.skip(read)
        &&& later.code == self.code + lexemes(self.tokens.take(read))
        &&& later.complete == self.complete
        &&& later.header == self.header
        &&& later.symbols == self.symbols
        &&& later.declared == self.declared
        &&& later.gotoed == self.gotoed
    }

    /// Whether `later` comes from this state by taking tokens from the front
    /// and nothing else.
    pub open spec fn reads_to(self, later: Compilation) -> bool {
        &&& later.tokens.len() <= self.tokens.len()
        &&& later == (Compilation { tokens: later.tokens, ..self })
        &&& later.tokens == self.tokens.skip(self.tokens.len() - later.tokens.len())
    }

    /// Whether `later` can come after this state: tokens are only taken from
    /// the front, the body and the three tables only grow at their ends, no
    /// name enters a table twice, and the header grows by exactly the
    /// declarations of the variables that are new.
    pub open spec fn leads_to(self, later: Compilation) -> bool {
        &&& later.tokens.len() <= self.tokens.len()
        &&& later.tokens == self.tokens.skip(self.tokens.len() - later.tokens.len())
        &&& later.complete == self.complete
        &&& self.code.is_prefix_of(later.code)
        &&& self.symbols.is_prefix_of(later.symbols)
        &&& self.declared.is_prefix_of(later.declared)
        &&& self.gotoed.is_prefix_of(later.gotoed)
        &&& self.symbols.no_duplicates() ==> later.symbols.no_duplicates()
        &&& self.declared.no_duplicates() ==> later.declared.no_duplicates()
        &&& self.gotoed.no_duplicates() ==> later.gotoed.no_duplicates()
        &&& later.header == self.header + declarations(
            later.symbols.skip(self.symbols.len() as int),
        )
    }

    /// The current token: the first one ahead, or the end-of-file token
    /// when none is left.
    pub open spec fn current(self) -> TokenView {
        if self.tokens.len() > 0 {
            self.tokens[0]
        } else {
            eof_token()
        }
    }

    /// The token behind the current one, if the scanner can read it.
    pub open spec fn peek(self) -> Option<TokenView> {
        if self.tokens.len() > 1 {
            Some(self.tokens[1])
        } else if self.complete {
            Some(eof_token())
        } else {
            None
        }
    }

    /// The finished text: the header, then the body.
    pub open spec fn output(self) -> Seq<char> {
        self.header + self.code
    }
}

/// A compilation under way, or one that a failure has ended, with the state
/// in which it ended. Every step leaves a failure as it is, state and
/// reason.
pub enum Pass {
    Going(Compilation),
    Failed(Compilation, Failure),
}

impl Pass {
    /// The compilation of `tokens`, followed by the end of the text if
    /// `complete`, with the buffers as given and nothing declared. It fails at
    /// once when the scanner cannot read a first token.
    pub open spec fn start(
        tokens: Seq<TokenView>,
        complete: bool,
        header: Seq<char>,
        code: Seq<char>,
    ) -> Pass {
        let s = Compilation {
            tokens,
            complete,
            header,
            code,
            symbols: Seq::empty(),
            declared: Seq::empty(),
            gotoed: Seq::empty(),
        };
        if tokens.len() == 0 && !complete {
            Pass::Failed(s, Failure::Lexing)
        } else {
            Pass::Going(s)
        }
    }

    /// The state of the compilation: the one reached, or the one in which
    /// it failed.
    pub open spec fn state(self) -> Compilation {
        match self {
            Pass::Going(s) => s,
            Pass::Failed(s, _) => s,
        }
    }

    /// Why the compilation failed, if it did.
    pub open spec fn failure(self) -> Option<Failure> {
        match self {
            Pass::Going(_) => None,
            Pass::Failed(_, reason) => Some(reason),
        }
    }

    /// How many tokens are still to be read; none after a failure.
    pub open spec fn remaining(self) -> nat {
        match self {
            Pass::Going(s) => s.tokens.len(),
            Pass::Failed(_, _) => 0,
        }
    }

    /// Whether the compilation is under way and its current token is of kind
    /// `kind`.
    pub open spec fn at(self, kind: TokenKind) -> bool {
        match self {
            Pass::Going(s) => s.current().kind == kind,
            Pass::Failed(_, _) => false,
        }
    }

    /// Whether the compilation is under way and its current token is a
    /// comparison operator.
    pub open spec fn at_comparison(self) -> bool {
        match self {
            Pass::Going(s) => is_comparison(s.current().kind),
            Pass::Failed(_, _) => false,
        }
    }

    /// The lexeme of the current token.
    pub open spec fn text(self) -> Seq<char> {
        match self {
            Pass::Going(s) => s.current().text,
            Pass::Failed(_, _) => Seq::empty(),
        }
    }

    /// Moves to the next token. This fails where the scanner could not read
    /// that token; at the end of the text nothing changes.
    pub open spec fn advance(self) -> Pass {
        match self {
            Pass::Going(s) => if s.tokens.len() == 0 {
                self
            } else if s.tokens.len() == 1 && !s.complete {
                Pass::Failed(s, Failure::Lexing)
            } else {
                Pass::Going(Compilation { tokens: s.tokens.drop_first(), ..s })
            },
            Pass::Failed(_, _) => self,
        }
    }

    /// Fails unless the current token is of kind `kind`.
    pub open spec fn expect(self, kind: TokenKind) -> Pass {
        match self {
            Pass::Going(s) => if s.current().kind == kind {
                self
            } else {
                Pass::Failed(
                    s,
                    Failure::Syntax {
                        expected: kind,
                        found: s.current().kind,
                        text: s.current().text,
                    },
                )
            },
            Pass::Failed(_, _) => self,
        }
    }

    /// Appends `text` to the body.
    pub open spec fn emit(self, text: Seq<char>) -> Pass {
        match self {
            Pass::Going(s) => Pass::Going(Compilation { code: s.code + text, ..s }),
            Pass::Failed(_, _) => self,
        }
    }

    /// Appends `text` and a line terminator to the body.
    pub open spec fn emit_line(self, text: Seq<char>) -> Pass {
        match self {
            Pass::Going(s) => Pass::Going(Compilation { code: (s.code + text).push('\n'), ..s }),
            Pass::Failed(_, _) => self,
        }
    }

    /// Appends `text` and a line terminator to the header.
    pub open spec fn header_line(self, text: Seq<char>) -> Pass {
        match self {
            Pass::Going(s) => Pass::Going(
                Compilation { header: (s.header + text).push('\n'), ..s },
            ),
            Pass::Failed(_, _) => self,
        }
    }

    /// Appends the lexeme of the current token to the body.
    pub open spec fn emit_current(self) -> Pass {
        self.emit(self.text())
    }

    /// Declares the variable `name` unless it is declared already: the name
    /// joins the symbols and its declaration the header.
    pub open spec fn declare_variable(self, name: Seq<char>) -> Pass {
        match self {
            Pass::Going(s) => if s.symbols.contains(name) {
                self
            } else {
                Pass::Going(Compilation { symbols: s.symbols.push(name), ..s }).header_line(
                    "float "@ + name + ";"@,
                )
            },
            Pass::Failed(_, _) => self,
        }
    }

    /// Declares the label `name`, which fails if it is declared already.
    pub open spec fn declare_label(self, name: Seq<char>) -> Pass {
        match self {
            Pass::Going(s) => if s.declared.contains(name) {
                Pass::Failed(s, Failure::DuplicateLabel { name })
            } else {
                Pass::Going(Compilation { declared: s.declared.push(name), ..s })
            },
            Pass::Failed(_, _) => self,
        }
    }

    /// Records that a jump names the label `name`.
    pub open spec fn reference_label(self, name: Seq<char>) -> Pass {
        match self {
            Pass::Going(s) => if s.gotoed.contains(name) {
                self
            } else {
                Pass::Going(Compilation { gotoed: s.gotoed.push(name), ..s })
            },
            Pass::Failed(_, _) => self,
        }
    }

    /// Fails with the first label that a jump names and the program does
    /// not declare.
    pub open spec fn check_labels(self) -> Pass {
        match self {
            Pass::Going(s) => match first_missing(s.gotoed, s.declared) {
                Some(name) => Pass::Failed(s, Failure::UndeclaredLabel { name }),
                None => self,
            },
            Pass::Failed(_, _) => self,
        }
    }

    /// Whether this pass can come after `before`: a failure stays, and a
    /// compilation under way leads to the state of this one, whether this
    /// one goes on or has failed there.
    pub open spec fn follows(self, before: Pass) -> bool {
        match before {
            Pass::Going(a) => a.leads_to(self.state()),
            Pass::Failed(_, _) => self == before,
        }
    }

    /// Whether this pass, where it goes on, has come from `before` by
    /// writing to the body the lexemes of the tokens that it took, and by
    /// nothing else.
    pub open spec fn echoes(self, before: Pass) -> bool {
        before is Going && self is Going ==> before.state().echoes_to(self.state())
    }

    /// `{NEWLINE}`: passes over the line terminators at the current
    /// position.
    pub open spec fn skip_newlines(self) -> Pass
        decreases self.remaining(),
    {
        if self.at(TokenKind::NEWLINE) {
            self.advance().skip_newlines()
        } else {
            self
        }
    }

    /// `nl ::= NEWLINE {NEWLINE}`
    pub open spec fn nl(self) -> Pass {
        self.expect(TokenKind::NEWLINE).skip_newlines()
    }

    /// `primary ::= NUMBER | IDENT`, written to the body as it stands. An
    /// identifier must be a declared variable.
    pub open spec fn primary(self) -> Pass {
        if self.at(TokenKind::NUMBER) {
            self.emit_current().advance()
        } else if self.at(TokenKind::IDENT) {
            match self {
                Pass::Going(s) => if s.symbols.contains(s.current().text) {
                    self.emit_current().advance()
                } else {
                    Pass::Failed(s, Failure::UndeclaredVariable { name: s.current().text })
                },
                Pass::Failed(_, _) => self,
            }
        } else {
            match self {
                Pass::Going(s) => Pass::Failed(
                    s,
                    Failure::UnexpectedToken { text: s.current().text },
                ),
                Pass::Failed(_, _) => self,
            }
        }
    }

    /// `unary ::= ["+" | "-"] primary`
    pub open spec fn unary(self) -> Pass {
        if self.at(TokenKind::PLUS) || self.at(TokenKind::MINUS) {
            self.emit_current().advance().primary()
        } else {
            self.primary()
        }
    }

    /// `{("*" | "/") unary}`
    pub open spec fn more_factors(self) -> Pass
        decreases self.remaining(),
    {
        if self.at(TokenKind::ASTERISK) || self.at(TokenKind::SLASH) {
            proof {
                lemma_unary_follows(self.emit_current().advance());
            }
            self.emit_current().advance().unary().more_factors()
        } else {
            self
        }
    }

    /// `term ::= unary {("*" | "/") unary}`
    pub open spec fn term(self) -> Pass {
        self.unary().more_factors()
    }

    /// `{("+" | "-") term}`
    pub open spec fn more_terms(self) -> Pass
        decreases self.remaining(),
    {
        if self.at(TokenKind::PLUS) || self.at(TokenKind::MINUS) {
            proof {
                lemma_term_follows(self.emit_current().advance());
            }
            self.emit_current().advance().term().more_terms()
        } else {
            self
        }
    }

    /// `expression ::= term {("+" | "-") term}`
    pub open spec fn expression(self) -> Pass {
        self.term().more_terms()
    }

    /// `{compare expression}`
    pub open spec fn more_comparisons(self) -> Pass
        decreases self.remaining(),
    {
        if self.at_comparison() {
            proof {
                lemma_expression_follows(self.emit_current().advance());
            }
            self.emit_current().advance().expression().more_comparisons()
        } else {
            self
        }
    }

    /// `comparison ::= expression compare expression {compare expression}`
    pub open spec fn comparison(self) -> Pass {
        let left = self.expression();
        if left.at_comparison() {
            left.emit_current().advance().expression().more_comparisons()
        } else {
            match left {
                Pass::Going(s) => Pass::Failed(
                    s,
                    Failure::MissingComparison { text: s.current().text },
                ),
                Pass::Failed(_, _) => left,
            }
        }
    }

    /// `PRINT (STRING | expression)`, with the keyword passed already.
    pub open spec fn print_rest(self) -> Pass {
        if self.at(TokenKind::STRING) {
            self.emit_line("printf(\""@ + self.text() + "\\n\");"@).advance()
        } else {
            self.emit("printf(\"%.2f\\n\", (float)("@).expression().emit_line("));"@)
        }
    }

    /// `LABEL IDENT`, with the keyword passed already.
    pub open spec fn label_rest(self) -> Pass {
        self.declare_label(self.text()).emit_line(self.text() + ":"@).expect(
            TokenKind::IDENT,
        ).advance()
    }

    /// `GOTO IDENT`, with the keyword passed already.
    pub open spec fn goto_rest(self) -> Pass {
        self.reference_label(self.text()).emit_line("goto "@ + self.text() + ";"@).expect(
            TokenKind::IDENT,
        ).advance()
    }

    /// `LET IDENT EQ expression`, with the keyword passed already.
    pub open spec fn let_rest(self) -> Pass {
        self.declare_variable(self.text()).emit(self.text() + " = "@).expect(
            TokenKind::IDENT,
        ).advance().expect(TokenKind::EQ).advance().expression().emit_line(";"@)
    }

    /// `INPUT IDENT`, with the keyword passed already. The generated code
    /// sets the variable to zero and drops the rest of the line when no number
    /// could be read.
    pub open spec fn input_rest(self) -> Pass {
        self.declare_variable(self.text()).emit_line(
            "if(0 == scanf(\"%f\", &"@ + self.text() + ")) {"@,
        ).emit_line(self.text() + " = 0;"@).emit("scanf(\"%"@).emit_line("*s\");"@).emit_line(
            "}"@,
        ).expect(TokenKind::IDENT).advance()
    }

    /// `comparison opener nl`: the condition of an `IF` or `WHILE`, the
    /// keyword `opener` that ends it and the rest of that line, with `brace`
    /// written behind the condition.
    pub open spec fn condition(self, opener: TokenKind, brace: Seq<char>) -> Pass {
        self.comparison().expect(opener).advance().nl().emit_line(brace)
    }

    /// `{statement}`, up to a token of kind `end`. A statement that is
    /// recognised takes at least one token (`lemma_statement_follows`), so the
    /// test on `remaining` always succeeds (`lemma_block_follows`); it stands
    /// here to show that the recursion ends.
    pub open spec fn block(self, end: TokenKind) -> Pass
        decreases self.remaining(), 1nat,
    {
        match self {
            Pass::Going(s) => if s.current().kind == end {
                self
            } else {
                let after = self.statement();
                if after.remaining() < self.remaining() {
                    after.block(end)
                } else {
                    after
                }
            },
            Pass::Failed(_, _) => self,
        }
    }

    /// `{statement} end`, with a closing brace written for `end`.
    pub open spec fn block_and_end(self, end: TokenKind) -> Pass
        decreases self.remaining(), 2nat,
    {
        self.block(end).expect(end).emit_line("}"@).advance()
    }

    /// One statement with the line terminators behind it.
    pub open spec fn statement(self) -> Pass
        decreases self.remaining(), 0nat,
    {
        let next = self.advance();
        if self.at(TokenKind::PRINT) {
            next.print_rest().nl()
        } else if self.at(TokenKind::IF) {
            proof {
                lemma_condition_follows(next.emit("if("@), TokenKind::THEN, "}{"@);
            }
            next.emit("if("@).condition(TokenKind::THEN, "}{"@).block_and_end(
                TokenKind::ENDIF,
            ).nl()
        } else if self.at(TokenKind::WHILE) {
            proof {
                lemma_condition_follows(next.emit("while("@), TokenKind::REPEAT, "){"@);
            }
            next.emit("while("@).condition(TokenKind::REPEAT, "){"@).block_and_end(
                TokenKind::ENDWHILE,
            ).nl()
        } else if self.at(TokenKind::LABEL) {
            next.label_rest().nl()
        } else if self.at(TokenKind::GOTO) {
            next.goto_rest().nl()
        } else if self.at(TokenKind::LET) {
            next.let_rest().nl()
        } else if self.at(TokenKind::INPUT) {
            next.input_rest().nl()
        } else {
            match self {
                Pass::Going(s) => Pass::Failed(
                    s,
                    Failure::InvalidStatement { text: s.current().text, kind: s.current().kind },
                ),
                Pass::Failed(_, _) => self,
            }
        }
    }

    /// `{NEWLINE} {statement}` up to the end of the text, between the
    /// opening and the closing lines of the C program.
    pub open spec fn program_body(self) -> Pass {
        self.header_line("#include <stdio.h>"@).header_line(
            "int main(void){"@,
        ).skip_newlines().block(TokenKind::EOF).emit_line("return 0;"@).emit_line("}"@)
    }

    /// `program ::= {NEWLINE} {statement}`, between the opening and the
    /// closing lines of the C program, followed by the check that every
    /// label named in a jump is declared.
    pub open spec fn program(self) -> Pass {
        self.program_body().check_labels()
    }
}

/// The declarations of two lists of variables, one behind the other, are the
/// declarations of the first list followed by those of the second.
pub proof fn lemma_declarations_concat(first: Seq<Seq<char>>, second: Seq<Seq<char>>)
    ensures
        declarations(first + second) == declarations(first) + declarations(second),
    decreases second.len(),
{
    if second.len() == 0 {
        assert(first + second =~= first);
    } else {
        lemma_declarations_concat(first, second.drop_last());
        assert((first + second).drop_last() =~= first + second.drop_last());
        assert((first + second).last() == second.last());
    }
}

/// Every state leads to itself.
pub proof fn lemma_leads_to_itself(a: Compilation)
    ensures
        a.leads_to(a),
{
    assert(a.tokens.skip(0) =~= a.tokens);
    assert(a.symbols.skip(a.symbols.len() as int) =~= Seq::<Seq<char>>::empty());
    assert(a.header + Seq::<char>::empty() =~= a.header);
}

/// What a state leads to in two steps, it leads to.
pub proof fn lemma_leads_to_transitive(a: Compilation, b: Compilation, c: Compilation)
    requires
        a.leads_to(b),
        b.leads_to(c),
    ensures
        a.leads_to(c),
{
    let k = a.tokens.len() - b.tokens.len();
    let j = b.tokens.len() - c.tokens.len();
    assert(a.tokens.skip(k).skip(j) =~= a.tokens.skip(k + j));
    let first = b.symbols.skip(a.symbols.len() as int);
    let second = c.symbols.skip(b.symbols.len() as int);
    assert(c.symbols.skip(a.symbols.len() as int) =~= first + second);
    lemma_declarations_concat(first, second);
    assert(a.header + declarations(first) + declarations(second) =~= a.header + (declarations(
        first,
    ) + declarations(second)));
}

/// A pass that follows one that follows a third follows the third.
pub proof fn lemma_follows_transitive(a: Pass, b: Pass, c: Pass)
    requires
        b.follows(a),
        c.follows(b),
    ensures
        c.follows(a),
{
    if a is Going && b is Going {
        lemma_leads_to_transitive(a.state(), b.state(), c.state());
    }
}

/// Each of the elementary steps leads from a state to one that follows it.
pub proof fn lemma_steps_follow(p: Pass)
    ensures
        p.follows(p),
        p.advance().follows(p),
        forall|kind: TokenKind| #[trigger] p.expect(kind).follows(p),
        forall|text: Seq<char>| #[trigger] p.emit(text).follows(p),
        forall|text: Seq<char>| #[trigger] p.emit_line(text).follows(p),
        forall|name: Seq<char>| #[trigger] p.declare_variable(name).follows(p),
        forall|name: Seq<char>| #[trigger] p.declare_label(name).follows(p),
        forall|name: Seq<char>| #[trigger] p.reference_label(name).follows(p),
        p.check_labels().follows(p),
        p.advance() is Going && p.remaining() > 0 ==> p.advance().remaining() < p.remaining(),
{
    match p {
        Pass::Going(a) => {
            lemma_leads_to_itself(a);
            if a.tokens.len() > 0 {
                assert(a.tokens.skip(1) =~= a.tokens.drop_first());
            }
            assert forall|name: Seq<char>| #[trigger] p.declare_variable(name).follows(p) by {
                if !a.symbols.contains(name) {
                    let grown = a.symbols.push(name);
                    assert(grown.skip(a.symbols.len() as int) =~= seq![name]);
                    assert(seq![name].drop_last() =~= Seq::<Seq<char>>::empty());
                    assert(declarations(seq![name].drop_last()) =~= Seq::<char>::empty());
                    assert(declarations(seq![name]) =~= declaration(name));
                    assert((a.header + ("float "@ + name + ";"@)).push('\n') =~= a.header
                        + declaration(name));
                    lemma_push_keeps_distinct(a.symbols, name);
                }
            }
            assert forall|name: Seq<char>| #[trigger] p.declare_label(name).follows(p) by {
                if !a.declared.contains(name) {
                    lemma_push_keeps_distinct(a.declared, name);
                }
            }
            assert forall|name: Seq<char>| #[trigger] p.reference_label(name).follows(p) by {
                if !a.gotoed.contains(name) {
                    lemma_push_keeps_distinct(a.gotoed, name);
                }
            }
        },
        Pass::Failed(_, _) => {},
    }
}

/// A list without repetitions stays so when a name that it lacks is put at
/// its end.
pub proof fn lemma_push_keeps_distinct(names: Seq<Seq<char>>, name: Seq<char>)
    requires
        !names.contains(name),
    ensures
        names.no_duplicates() ==> names.push(name).no_duplicates(),
{
    if names.no_duplicates() {
        let grown = names.push(name);
        assert forall|i: int, j: int| 0 <= i < grown.len() && 0 <= j < grown.len() && i != j
            implies grown[i] != grown[j] by {
            if i < names.len() && j < names.len() {
            } else if i < names.len() {
                assert(names.contains(names[i]));
            } else {
                assert(names.contains(names[j]));
            }
        }
    }
}

/// `{NEWLINE}` leads to a state that follows.
pub proof fn lemma_skip_newlines_follows(p: Pass)
    ensures
        p.skip_newlines().follows(p),
        !p.skip_newlines().at(TokenKind::NEWLINE),
    decreases p.remaining(),
{
    lemma_steps_follow(p);
    if p.at(TokenKind::NEWLINE) {
        lemma_skip_newlines_follows(p.advance());
        lemma_follows_transitive(p, p.advance(), p.skip_newlines());
    }
}

/// `nl` leads to a state that follows, with at least one token taken.
pub proof fn lemma_nl_follows(p: Pass)
    ensures
        p.nl().follows(p),
        p.nl() is Going ==> p.nl().remaining() < p.remaining(),
{
    let q = p.expect(TokenKind::NEWLINE);
    lemma_steps_follow(p);
    lemma_steps_follow(q);
    lemma_skip_newlines_follows(q.advance());
    lemma_follows_transitive(p, q, q.advance());
    lemma_follows_transitive(p, q.advance(), p.nl());
}

/// `primary` leads to a state that follows, with one token taken.
pub proof fn lemma_primary_follows(p: Pass)
    ensures
        p.primary().follows(p),
        p.primary() is Going ==> p.primary().remaining() < p.remaining(),
{
    let q = p.emit_current();
    lemma_steps_follow(p);
    lemma_steps_follow(q);
    lemma_follows_transitive(p, q, q.advance());
}

/// `unary` leads to a state that follows, with at least one token taken.
pub proof fn lemma_unary_follows(p: Pass)
    ensures
        p.unary().follows(p),
        p.unary() is Going ==> p.unary().remaining() < p.remaining(),
{
    let q = p.emit_current();
    lemma_steps_follow(p);
    lemma_steps_follow(q);
    lemma_follows_transitive(p, q, q.advance());
    lemma_primary_follows(q.advance());
    lemma_primary_follows(p);
    lemma_follows_transitive(p, q.advance(), q.advance().primary());
}

/// `{("*" | "/") unary}` leads to a state that follows.
pub proof fn lemma_more_factors_follows(p: Pass)
    ensures
        p.more_factors().follows(p),
    decreases p.remaining(),
{
    lemma_steps_follow(p);
    if p.at(TokenKind::ASTERISK) || p.at(TokenKind::SLASH) {
        let q = p.emit_current();
        lemma_steps_follow(q);
        lemma_follows_transitive(p, q, q.advance());
        lemma_unary_follows(q.advance());
        let r = q.advance().unary();
        lemma_follows_transitive(p, q.advance(), r);
        lemma_more_factors_follows(r);
        lemma_follows_transitive(p, r, r.more_factors());
    }
}

/// `term` leads to a state that follows, with at least one token taken.
pub proof fn lemma_term_follows(p: Pass)
    ensures
        p.term().follows(p),
        p.term() is Going ==> p.term().remaining() < p.remaining(),
{
    lemma_unary_follows(p);
    lemma_more_factors_follows(p.unary());
    lemma_follows_transitive(p, p.unary(), p.term());
}

/// `{("+" | "-") term}` leads to a state that follows.
pub proof fn lemma_more_terms_follows(p: Pass)
    ensures
        p.more_terms().follows(p),
    decreases p.remaining(),
{
    lemma_steps_follow(p);
    if p.at(TokenKind::PLUS) || p.at(TokenKind::MINUS) {
        let q = p.emit_current();
        lemma_steps_follow(q);
        lemma_follows_transitive(p, q, q.advance());
        lemma_term_follows(q.advance());
        let r = q.advance().term();
        lemma_follows_transitive(p, q.advance(), r);
        lemma_more_terms_follows(r);
        lemma_follows_transitive(p, r, r.more_terms());
    }
}

/// `expression` leads to a state that follows, with at least one token
/// taken.
pub proof fn lemma_expression_follows(p: Pass)
    ensures
        p.expression().follows(p),
        p.expression() is Going ==> p.expression().remaining() < p.remaining(),
{
    lemma_term_follows(p);
    lemma_more_terms_follows(p.term());
    lemma_follows_transitive(p, p.term(), p.expression());
}

/// `{compare expression}` leads to a state that follows.
pub proof fn lemma_more_comparisons_follows(p: Pass)
    ensures
        p.more_comparisons().follows(p),
    decreases p.remaining(),
{
    lemma_steps_follow(p);
    if p.at_comparison() {
        let q = p.emit_current();
        lemma_steps_follow(q);
        lemma_follows_transitive(p, q, q.advance());
        lemma_expression_follows(q.advance());
        let r = q.advance().expression();
        lemma_follows_transitive(p, q.advance(), r);
        lemma_more_comparisons_follows(r);
        lemma_follows_transitive(p, r, r.more_comparisons());
    }
}

/// `comparison` leads to a state that follows, with at least one token
/// taken.
pub proof fn lemma_comparison_follows(p: Pass)
    ensures
        p.comparison().follows(p),
        p.comparison() is Going ==> p.comparison().remaining() < p.remaining(),
{
    lemma_expression_follows(p);
    let left = p.expression();
    if left.at_comparison() {
        let q = left.emit_current();
        lemma_steps_follow(left);
        lemma_steps_follow(q);
        lemma_follows_transitive(left, q, q.advance());
        lemma_follows_transitive(p, left, q.advance());
        lemma_expression_follows(q.advance());
        let r = q.advance().expression();
        lemma_follows_transitive(p, q.advance(), r);
        lemma_more_comparisons_follows(r);
        lemma_follows_transitive(p, r, r.more_comparisons());
    }
}

/// The condition of an `IF` or a `WHILE` leads to a state that follows, with
/// at least one token taken.
pub proof fn lemma_condition_follows(p: Pass, opener: TokenKind, brace: Seq<char>)
    ensures
        p.condition(opener, brace).follows(p),
        p.condition(opener, brace) is Going ==> p.condition(opener, brace).remaining()
            < p.remaining(),
{
    lemma_comparison_follows(p);
    let a = p.comparison();
    let b = a.expect(opener);
    let c = b.advance();
    let d = c.nl();
    lemma_steps_follow(a);
    lemma_steps_follow(b);
    lemma_nl_follows(c);
    lemma_steps_follow(d);
    lemma_follows_transitive(p, a, b);
    lemma_follows_transitive(p, b, c);
    lemma_follows_transitive(p, c, d);
    lemma_follows_transitive(p, d, d.emit_line(brace));
}

/// An elementary step from a state that follows `origin` leads to one that
/// follows `origin` too.
pub proof fn lemma_steps_after(origin: Pass, p: Pass)
    requires
        p.follows(origin),
    ensures
        p.advance().follows(origin),
        forall|kind: TokenKind| #[trigger] p.expect(kind).follows(origin),
        forall|text: Seq<char>| #[trigger] p.emit(text).follows(origin),
        forall|text: Seq<char>| #[trigger] p.emit_line(text).follows(origin),
        forall|name: Seq<char>| #[trigger] p.declare_variable(name).follows(origin),
        forall|name: Seq<char>| #[trigger] p.declare_label(name).follows(origin),
        forall|name: Seq<char>| #[trigger] p.reference_label(name).follows(origin),
        p.check_labels().follows(origin),
        p.remaining() <= origin.remaining(),
        p.advance() is Going && p.remaining() > 0 ==> p.advance().remaining()
            < origin.remaining(),
{
    lemma_steps_follow(p);
    lemma_follows_transitive(origin, p, p.advance());
    lemma_follows_transitive(origin, p, p.check_labels());
    assert forall|kind: TokenKind| #[trigger] p.expect(kind).follows(origin) by {
        lemma_follows_transitive(origin, p, p.expect(kind));
    }
    assert forall|text: Seq<char>| #[trigger] p.emit(text).follows(origin) by {
        lemma_follows_transitive(origin, p, p.emit(text));
    }
    assert forall|text: Seq<char>| #[trigger] p.emit_line(text).follows(origin) by {
        lemma_follows_transitive(origin, p, p.emit_line(text));
    }
    assert forall|name: Seq<char>| #[trigger] p.declare_variable(name).follows(origin) by {
        lemma_follows_transitive(origin, p, p.declare_variable(name));
    }
    assert forall|name: Seq<char>| #[trigger] p.declare_label(name).follows(origin) by {
        lemma_follows_transitive(origin, p, p.declare_label(name));
    }
    assert forall|name: Seq<char>| #[trigger] p.reference_label(name).follows(origin) by {
        lemma_follows_transitive(origin, p, p.reference_label(name));
    }
}

/// The rest of a `PRINT` statement leads to a state that follows.
pub proof fn lemma_print_rest_follows(p: Pass)
    ensures
        p.print_rest().follows(p),
{
    lemma_steps_follow(p);
    if p.at(TokenKind::STRING) {
        lemma_steps_after(p, p.emit_line("printf(\""@ + p.text() + "\\n\");"@));
    } else {
        let a = p.emit("printf(\"%.2f\\n\", (float)("@);
        lemma_expression_follows(a);
        lemma_follows_transitive(p, a, a.expression());
        lemma_steps_after(p, a.expression());
    }
}

/// The rest of a `LABEL` statement leads to a state that follows, in which
/// the label is declared.
pub proof fn lemma_label_rest_follows(p: Pass)
    ensures
        p.label_rest().follows(p),
        p.label_rest() matches Pass::Going(s) ==> s.declared.contains(p.text()),
{
    let a = p.declare_label(p.text());
    let b = a.emit_line(p.text() + ":"@);
    let c = b.expect(TokenKind::IDENT);
    lemma_steps_follow(p);
    lemma_steps_after(p, a);
    lemma_steps_after(p, b);
    lemma_steps_after(p, c);
    if let Pass::Going(s) = a {
        let before = p->Going_0.declared;
        assert(before.push(p.text())[before.len() as int] == p.text());
    }
}

/// The rest of a `GOTO` statement leads to a state that follows, in which
/// the label is recorded as the target of a jump.
pub proof fn lemma_goto_rest_follows(p: Pass)
    ensures
        p.goto_rest().follows(p),
        p.goto_rest() matches Pass::Going(s) ==> s.gotoed.contains(p.text()),
{
    let a = p.reference_label(p.text());
    let b = a.emit_line("goto "@ + p.text() + ";"@);
    let c = b.expect(TokenKind::IDENT);
    lemma_steps_follow(p);
    lemma_steps_after(p, a);
    lemma_steps_after(p, b);
    lemma_steps_after(p, c);
    if let Pass::Going(s) = a {
        let before = p->Going_0.gotoed;
        if !before.contains(p.text()) {
            assert(before.push(p.text())[before.len() as int] == p.text());
        }
    }
}

/// After `declare_variable` the variable is declared.
pub proof fn lemma_declared_after(p: Pass, name: Seq<char>)
    ensures
        p.declare_variable(name) matches Pass::Going(s) ==> s.symbols.contains(name),
{
    if let Pass::Going(a) = p {
        if !a.symbols.contains(name) {
            assert(a.symbols.push(name)[a.symbols.len() as int] == name);
        }
    }
}

/// What a list holds, every list that it is the beginning of holds too.
pub proof fn lemma_prefix_contains(first: Seq<Seq<char>>, whole: Seq<Seq<char>>, name: Seq<char>)
    requires
        first.is_prefix_of(whole),
        first.contains(name),
    ensures
        whole.contains(name),
{
    let i = choose|i: int| 0 <= i < first.len() && first[i] == name;
    assert(whole[i] == name);
}

/// The rest of a `LET` statement leads to a state that follows, in which
/// the variable is declared.
pub proof fn lemma_let_rest_follows(p: Pass)
    ensures
        p.let_rest().follows(p),
        p.let_rest() matches Pass::Going(s) ==> s.symbols.contains(p.text()),
{
    let a = p.declare_variable(p.text());
    let b = a.emit(p.text() + " = "@);
    let c = b.expect(TokenKind::IDENT);
    let d = c.advance();
    let e = d.expect(TokenKind::EQ);
    let f = e.advance();
    let g = f.expression();
    lemma_steps_follow(p);
    lemma_steps_after(p, a);
    lemma_steps_after(p, b);
    lemma_steps_after(p, c);
    lemma_steps_after(p, d);
    lemma_steps_after(p, e);
    lemma_expression_follows(f);
    lemma_follows_transitive(p, f, g);
    lemma_steps_after(p, g);
    lemma_declared_after(p, p.text());
    if let Pass::Going(s) = p.let_rest() {
        lemma_steps_follow(a);
        lemma_steps_after(a, b);
        lemma_steps_after(a, c);
        lemma_steps_after(a, d);
        lemma_steps_after(a, e);
        lemma_follows_transitive(a, f, g);
        lemma_steps_after(a, g);
        lemma_prefix_contains(a->Going_0.symbols, s.symbols, p.text());
    }
}

/// The rest of an `INPUT` statement leads to a state that follows, in which
/// the variable is declared.
pub proof fn lemma_input_rest_follows(p: Pass)
    ensures
        p.input_rest().follows(p),
        p.input_rest() matches Pass::Going(s) ==> s.symbols.contains(p.text()),
{
    let a = p.declare_variable(p.text());
    let b = a.emit_line("if(0 == scanf(\"%f\", &"@ + p.text() + ")) {"@);
    let c = b.emit_line(p.text() + " = 0;"@);
    let d = c.emit("scanf(\"%"@);
    let e = d.emit_line("*s\");"@);
    let f = e.emit_line("}"@);
    let g = f.expect(TokenKind::IDENT);
    lemma_steps_follow(p);
    lemma_steps_after(p, a);
    lemma_steps_after(p, b);
    lemma_steps_after(p, c);
    lemma_steps_after(p, d);
    lemma_steps_after(p, e);
    lemma_steps_after(p, f);
    lemma_steps_after(p, g);
    lemma_declared_after(p, p.text());
    if let Pass::Going(s) = p.input_rest() {
        lemma_steps_follow(a);
        lemma_steps_after(a, b);
        lemma_steps_after(a, c);
        lemma_steps_after(a, d);
        lemma_steps_after(a, e);
        lemma_steps_after(a, f);
        lemma_steps_after(a, g);
        lemma_prefix_contains(a->Going_0.symbols, s.symbols, p.text());
    }
}

/// A statement leads to a state that follows, with at least one token
/// taken.
pub proof fn lemma_statement_follows(p: Pass)
    ensures
        p.statement().follows(p),
        p.statement() is Going ==> p.statement().remaining() < p.remaining(),
    decreases p.remaining(), 0nat,
{
    lemma_steps_follow(p);
    let next = p.advance();
    if p.at(TokenKind::PRINT) {
        lemma_print_rest_follows(next);
        lemma_follows_transitive(p, next, next.print_rest());
        lemma_nl_follows(next.print_rest());
        lemma_follows_transitive(p, next.print_rest(), p.statement());
    } else if p.at(TokenKind::IF) {
        let a = next.emit("if("@);
        let b = a.condition(TokenKind::THEN, "}{"@);
        lemma_steps_after(p, next);
        lemma_condition_follows(a, TokenKind::THEN, "}{"@);
        lemma_follows_transitive(p, a, b);
        lemma_block_and_end_follows(b, TokenKind::ENDIF);
        lemma_follows_transitive(p, b, b.block_and_end(TokenKind::ENDIF));
        lemma_nl_follows(b.block_and_end(TokenKind::ENDIF));
        lemma_follows_transitive(p, b.block_and_end(TokenKind::ENDIF), p.statement());
    } else if p.at(TokenKind::WHILE) {
        let a = next.emit("while("@);
        let b = a.condition(TokenKind::REPEAT, "){"@);
        lemma_steps_after(p, next);
        lemma_condition_follows(a, TokenKind::REPEAT, "){"@);
        lemma_follows_transitive(p, a, b);
        lemma_block_and_end_follows(b, TokenKind::ENDWHILE);
        lemma_follows_transitive(p, b, b.block_and_end(TokenKind::ENDWHILE));
        lemma_nl_follows(b.block_and_end(TokenKind::ENDWHILE));
        lemma_follows_transitive(p, b.block_and_end(TokenKind::ENDWHILE), p.statement());
    } else if p.at(TokenKind::LABEL) {
        lemma_label_rest_follows(next);
        lemma_follows_transitive(p, next, next.label_rest());
        lemma_nl_follows(next.label_rest());
        lemma_follows_transitive(p, next.label_rest(), p.statement());
    } else if p.at(TokenKind::GOTO) {
        lemma_goto_rest_follows(next);
        lemma_follows_transitive(p, next, next.goto_rest());
        lemma_nl_follows(next.goto_rest());
        lemma_follows_transitive(p, next.goto_rest(), p.statement());
    } else if p.at(TokenKind::LET) {
        lemma_let_rest_follows(next);
        lemma_follows_transitive(p, next, next.let_rest());
        lemma_nl_follows(next.let_rest());
        lemma_follows_transitive(p, next.let_rest(), p.statement());
    } else if p.at(TokenKind::INPUT) {
        lemma_input_rest_follows(next);
        lemma_follows_transitive(p, next, next.input_rest());
        lemma_nl_follows(next.input_rest());
        lemma_follows_transitive(p, next.input_rest(), p.statement());
    }
}

/// A block is its statements one after the other: where the current token
/// does not end it, it is one statement and then the rest of the block. It
/// leads to a state that follows, and that state stands at the token that
/// ends the block.
pub proof fn lemma_block_follows(p: Pass, end: TokenKind)
    ensures
        p.block(end).follows(p),
        p.block(end) is Going ==> p.block(end).at(end),
        p is Going && !p.at(end) ==> p.block(end) == p.statement().block(end),
    decreases p.remaining(), 1nat,
{
    lemma_steps_follow(p);
    if p is Going && !p.at(end) {
        lemma_statement_follows(p);
        let after = p.statement();
        if after is Going {
            lemma_block_follows(after, end);
            lemma_follows_transitive(p, after, after.block(end));
        }
    }
}

/// A block with the token that ends it leads to a state that follows.
pub proof fn lemma_block_and_end_follows(p: Pass, end: TokenKind)
    ensures
        p.block_and_end(end).follows(p),
    decreases p.remaining(), 2nat,
{
    lemma_block_follows(p, end);
    let a = p.block(end);
    lemma_steps_after(p, a);
    lemma_steps_after(p, a.expect(end));
    lemma_steps_after(p, a.expect(end).emit_line("}"@));
}

/// A failure is final: every rule leaves it as it is.
pub proof fn lemma_failure_is_final(p: Pass)
    requires
        p is Failed,
    ensures
        p.skip_newlines() == p,
        p.nl() == p,
        p.primary() == p,
        p.unary() == p,
        p.more_factors() == p,
        p.term() == p,
        p.more_terms() == p,
        p.expression() == p,
        p.more_comparisons() == p,
        p.comparison() == p,
        p.print_rest() == p,
        p.label_rest() == p,
        p.goto_rest() == p,
        p.let_rest() == p,
        p.input_rest() == p,
        forall|opener: TokenKind, brace: Seq<char>| #[trigger] p.condition(opener, brace) == p,
        p.statement() == p,
        forall|end: TokenKind| #[trigger] p.block(end) == p,
        forall|end: TokenKind| #[trigger] p.block_and_end(end) == p,
        p.program_body() == p,
        p.program() == p,
{
}

/// The lexemes of two runs of tokens, one behind the other, are the lexemes
/// of the first followed by those of the second.
pub proof fn lemma_lexemes_concat(first: Seq<TokenView>, second: Seq<TokenView>)
    ensures
        lexemes(first + second) == lexemes(first) + lexemes(second),
    decreases second.len(),
{
    if second.len() == 0 {
        assert(first + second =~= first);
    } else {
        lemma_lexemes_concat(first, second.drop_last());
        assert((first + second).drop_last() =~= first + second.drop_last());
        assert((first + second).last() == second.last());
    }
}

/// What is echoed in two steps is echoed.
pub proof fn lemma_echoes_transitive(a: Pass, b: Pass, c: Pass)
    requires
        b.echoes(a),
        c.echoes(b),
        c is Going ==> b is Going,
    ensures
        c.echoes(a),
{
    if a is Going && c is Going {
        let x = a.state();
        let y = b.state();
        let z = c.state();
        let k = x.tokens.len() - y.tokens.len();
        let j = y.tokens.len() - z.tokens.len();
        assert(x.tokens.skip(k).skip(j) =~= x.tokens.skip(k + j));
        assert(x.tokens.take(k + j) =~= x.tokens.take(k) + x.tokens.skip(k).take(j));
        lemma_lexemes_concat(x.tokens.take(k), y.tokens.take(j));
        assert(x.code + lexemes(x.tokens.take(k)) + lexemes(y.tokens.take(j)) =~= x.code + (
            lexemes(x.tokens.take(k)) + lexemes(y.tokens.take(j))));
    }
}

/// Writing the current token and moving on echoes that token; a pass echoes
/// itself.
pub proof fn lemma_echoes_token(p: Pass)
    ensures
        p.echoes(p),
        p.remaining() > 0 ==> p.emit_current().advance().echoes(p),
{
    if let Pass::Going(a) = p {
        assert(a.tokens.skip(0) =~= a.tokens);
        assert(a.tokens.take(0) =~= Seq::<TokenView>::empty());
        assert(a.code + lexemes(a.tokens.take(0)) =~= a.code);
        if a.tokens.len() > 0 {
            assert(a.tokens.skip(1) =~= a.tokens.drop_first());
            assert(a.tokens.take(1).drop_last() =~= Seq::<TokenView>::empty());
            assert(lexemes(a.tokens.take(1).drop_last()) =~= Seq::<char>::empty());
            assert(lexemes(a.tokens.take(1)) =~= a.tokens[0].text);
        }
    }
}

/// `primary` writes the token that it takes.
pub proof fn lemma_primary_echoes(p: Pass)
    ensures
        p.primary().echoes(p),
{
    lemma_echoes_token(p);
}

/// `unary` writes the tokens that it takes.
pub proof fn lemma_unary_echoes(p: Pass)
    ensures
        p.unary().echoes(p),
{
    lemma_echoes_token(p);
    if p.at(TokenKind::PLUS) || p.at(TokenKind::MINUS) {
        let q = p.emit_current().advance();
        lemma_primary_echoes(q);
        if q is Failed {
            lemma_failure_is_final(q);
        }
        lemma_echoes_transitive(p, q, q.primary());
    } else {
        lemma_primary_echoes(p);
    }
}

/// `{("*" | "/") unary}` writes the tokens that it takes.
pub proof fn lemma_more_factors_echoes(p: Pass)
    ensures
        p.more_factors().echoes(p),
    decreases p.remaining(),
{
    lemma_echoes_token(p);
    if p.at(TokenKind::ASTERISK) || p.at(TokenKind::SLASH) {
        let q = p.emit_current().advance();
        let r = q.unary();
        lemma_steps_follow(p);
        lemma_steps_follow(p.emit_current());
        lemma_unary_follows(q);
        lemma_unary_echoes(q);
        lemma_more_factors_echoes(r);
        if q is Failed {
            lemma_failure_is_final(q);
        }
        if r is Failed {
            lemma_failure_is_final(r);
        }
        lemma_echoes_transitive(p, q, r);
        lemma_echoes_transitive(p, r, r.more_factors());
    }
}

/// `term` writes the tokens that it takes.
pub proof fn lemma_term_echoes(p: Pass)
    ensures
        p.term().echoes(p),
{
    lemma_unary_echoes(p);
    lemma_more_factors_echoes(p.unary());
    if p.unary() is Failed {
        lemma_failure_is_final(p.unary());
    }
    lemma_echoes_transitive(p, p.unary(), p.term());
}

/// `{("+" | "-") term}` writes the tokens that it takes.
pub proof fn lemma_more_terms_echoes(p: Pass)
    ensures
        p.more_terms().echoes(p),
    decreases p.remaining(),
{
    lemma_echoes_token(p);
    if p.at(TokenKind::PLUS) || p.at(TokenKind::MINUS) {
        let q = p.emit_current().advance();
        let r = q.term();
        lemma_steps_follow(p);
        lemma_steps_follow(p.emit_current());
        lemma_term_follows(q);
        lemma_term_echoes(q);
        lemma_more_terms_echoes(r);
        if q is Failed {
            lemma_failure_is_final(q);
        }
        if r is Failed {
            lemma_failure_is_final(r);
        }
        lemma_echoes_transitive(p, q, r);
        lemma_echoes_transitive(p, r, r.more_terms());
    }
}

/// An expression is written to the body as it stands: the lexemes of its
/// tokens, in their order, with nothing between them. Nothing else changes.
pub proof fn lemma_expression_echoes(p: Pass)
    ensures
        p.expression().echoes(p),
{
    lemma_term_echoes(p);
    lemma_more_terms_echoes(p.term());
    if p.term() is Failed {
        lemma_failure_is_final(p.term());
    }
    lemma_echoes_transitive(p, p.term(), p.expression());
}

/// `{compare expression}` writes the tokens that it takes.
pub proof fn lemma_more_comparisons_echoes(p: Pass)
    ensures
        p.more_comparisons().echoes(p),
    decreases p.remaining(),
{
    lemma_echoes_token(p);
    if p.at_comparison() {
        let q = p.emit_current().advance();
        let r = q.expression();
        lemma_steps_follow(p);
        lemma_steps_follow(p.emit_current());
        lemma_expression_follows(q);
        lemma_expression_echoes(q);
        lemma_more_comparisons_echoes(r);
        if q is Failed {
            lemma_failure_is_final(q);
        }
        if r is Failed {
            lemma_failure_is_final(r);
        }
        lemma_echoes_transitive(p, q, r);
        lemma_echoes_transitive(p, r, r.more_comparisons());
    }
}

/// A comparison is written to the body as it stands: the lexemes of its
/// tokens, in their order, with nothing between them. Nothing else changes.
pub proof fn lemma_comparison_echoes(p: Pass)
    ensures
        p.comparison().echoes(p),
{
    let left = p.expression();
    lemma_expression_echoes(p);
    if left.at_comparison() {
        let q = left.emit_current().advance();
        let r = q.expression();
        lemma_echoes_token(left);
        lemma_expression_echoes(q);
        lemma_more_comparisons_echoes(r);
        if q is Failed {
            lemma_failure_is_final(q);
        }
        if r is Failed {
            lemma_failure_is_final(r);
        }
        lemma_echoes_transitive(p, left, q);
        lemma_echoes_transitive(p, q, r);
        lemma_echoes_transitive(p, r, r.more_comparisons());
    }
}

/// `{NEWLINE}` and `nl` take tokens and change nothing else.
pub proof fn lemma_newlines_only_read(p: Pass)
    requires
        p is Going,
    ensures
        p.skip_newlines() is Going ==> p.state().reads_to(p.skip_newlines().state()),
        p.nl() is Going ==> p.state().reads_to(p.nl().state()),
    decreases p.remaining(),
{
    let a = p.state();
    assert(a.tokens.skip(0) =~= a.tokens);
    if p.at(TokenKind::NEWLINE) {
        let q = p.advance();
        if q is Going {
            assert(a.tokens.skip(1) =~= a.tokens.drop_first());
            lemma_newlines_only_read(q);
            if q.skip_newlines() is Going {
                let k = q.state().tokens.len() - q.skip_newlines().state().tokens.len();
                assert(a.tokens.skip(1).skip(k) =~= a.tokens.skip(1 + k));
            }
        } else {
            lemma_failure_is_final(q);
        }
    }
}

} // verus!
