//! The programs of the language, as what they are made of rather than as
//! what the parser does with them, and the proof that the parser accepts
//! every one of them.
use vstd::prelude::*;
use crate::grammar::{
    Compilation, Pass, first_missing, is_comparison, lemma_block_follows, lemma_echoes_token,
    lemma_echoes_transitive, lemma_expression_echoes, lemma_unary_echoes,
};
use crate::laws::lemma_first_missing;
use crate::lexer::ahead;
use crate::token::{TokenKind, TokenView, kind_name};
use crate::translation;

verus! {

/// The lexeme of a token whose kind allows only one: a keyword, an operator,
/// the line terminator. Numbers, identifiers and strings have none.
pub open spec fn lexeme_of(kind: TokenKind) -> Seq<char> {
    match kind {
        TokenKind::EOF => seq!['\0'],
        TokenKind::NEWLINE => seq!['\n'],
        TokenKind::NUMBER => Seq::empty(),
        TokenKind::IDENT => Seq::empty(),
        TokenKind::STRING => Seq::empty(),
        TokenKind::EQ => "="@,
        TokenKind::PLUS => "+"@,
        TokenKind::MINUS => "-"@,
        TokenKind::ASTERISK => "*"@,
        TokenKind::SLASH => "/"@,
        TokenKind::EQEQ => "=="@,
        TokenKind::NOTEQ => "!="@,
        TokenKind::LT => "<"@,
        TokenKind::LTEQ => "<="@,
        TokenKind::GT => ">"@,
        TokenKind::GTEQ => ">="@,
        _ => kind_name(kind),
    }
}

/// The token of a kind that allows only one lexeme.
pub open spec fn token_of(kind: TokenKind) -> TokenView {
    TokenView { text: lexeme_of(kind), kind }
}

/// One of `+`, `-`, `*`, `/`.
pub open spec fn is_arithmetic(kind: TokenKind) -> bool {
    kind == TokenKind::PLUS || kind == TokenKind::MINUS || kind == TokenKind::ASTERISK || kind
        == TokenKind::SLASH
}

/// Whether the tokens `tail` can stand behind an expression: they do not
/// start with an operator that would continue it.
pub open spec fn ends_expression(tail: Seq<TokenView>) -> bool {
    tail.len() > 0 ==> !is_arithmetic(tail[0].kind)
}

/// Whether the tokens `tail` can stand behind a comparison.
pub open spec fn ends_comparison(tail: Seq<TokenView>) -> bool {
    tail.len() > 0 ==> !is_arithmetic(tail[0].kind) && !is_comparison(tail[0].kind)
}

/// A number or a variable, with a sign in front of it or without.
pub struct Operand {
    pub sign: Option<TokenKind>,
    pub value: TokenView,
}

impl Operand {
    /// The sign is `+` or `-`, the value a number or an identifier.
    pub open spec fn well_formed(self) -> bool {
        &&& self.sign matches Some(kind) ==> kind == TokenKind::PLUS || kind == TokenKind::MINUS
        &&& self.value.kind == TokenKind::NUMBER || self.value.kind == TokenKind::IDENT
    }

    /// An identifier is one of `symbols`.
    pub open spec fn reads_only(self, symbols: Seq<Seq<char>>) -> bool {
        self.value.kind == TokenKind::IDENT ==> symbols.contains(self.value.text)
    }

    /// The tokens that spell the operand.
    pub open spec fn tokens(self) -> Seq<TokenView> {
        match self.sign {
            Some(kind) => seq![token_of(kind), self.value],
            None => seq![self.value],
        }
    }
}

/// What follows the first operand of an expression: operators, each with the
/// operand behind it.
pub struct Operation {
    pub operator: TokenKind,
    pub operand: Operand,
}

/// The tokens that spell a run of operations.
pub open spec fn operations_tokens(rest: Seq<Operation>) -> Seq<TokenView>
    decreases rest.len(),
{
    if rest.len() == 0 {
        Seq::empty()
    } else {
        seq![token_of(rest[0].operator)] + rest[0].operand.tokens() + operations_tokens(
            rest.drop_first(),
        )
    }
}

/// An expression: operands with `+`, `-`, `*` or `/` between them.
pub struct Expression {
    pub first: Operand,
    pub rest: Seq<Operation>,
}

impl Expression {
    /// Every operand is well formed and every operator arithmetic.
    pub open spec fn well_formed(self) -> bool {
        &&& self.first.well_formed()
        &&& forall|i: int|
            0 <= i < self.rest.len() ==> is_arithmetic((#[trigger] self.rest[i]).operator)
                && self.rest[i].operand.well_formed()
    }

    /// Every identifier in the expression is one of `symbols`.
    pub open spec fn reads_only(self, symbols: Seq<Seq<char>>) -> bool {
        &&& self.first.reads_only(symbols)
        &&& forall|i: int|
            0 <= i < self.rest.len() ==> (#[trigger] self.rest[i]).operand.reads_only(symbols)
    }

    /// The tokens that spell the expression.
    pub open spec fn tokens(self) -> Seq<TokenView> {
        self.first.tokens() + operations_tokens(self.rest)
    }
}

/// A comparison operator with the expression behind it.
pub struct Compared {
    pub operator: TokenKind,
    pub value: Expression,
}

/// The tokens that spell a run of comparisons.
pub open spec fn compared_tokens(rest: Seq<Compared>) -> Seq<TokenView>
    decreases rest.len(),
{
    if rest.len() == 0 {
        Seq::empty()
    } else {
        seq![token_of(rest[0].operator)] + rest[0].value.tokens() + compared_tokens(
            rest.drop_first(),
        )
    }
}

/// A condition: expressions with comparison operators between them, at least
/// one operator.
pub struct Comparison {
    pub first: Expression,
    pub rest: Seq<Compared>,
}

impl Comparison {
    /// Every expression is well formed, every operator a comparison, and
    /// there is at least one.
    pub open spec fn well_formed(self) -> bool {
        &&& self.first.well_formed()
        &&& self.rest.len() > 0
        &&& forall|i: int|
            0 <= i < self.rest.len() ==> is_comparison((#[trigger] self.rest[i]).operator)
                && self.rest[i].value.well_formed()
    }

    /// Every identifier in the comparison is one of `symbols`.
    pub open spec fn reads_only(self, symbols: Seq<Seq<char>>) -> bool {
        &&& self.first.reads_only(symbols)
        &&& forall|i: int|
            0 <= i < self.rest.len() ==> (#[trigger] self.rest[i]).value.reads_only(symbols)
    }

    /// The tokens that spell the comparison.
    pub open spec fn tokens(self) -> Seq<TokenView> {
        self.first.tokens() + compared_tokens(self.rest)
    }
}

/// Whether the pass goes on with the tokens `tokens` ahead, and can take all
/// of them but those of `tail` without meeting a place where the scanner
/// failed.
pub open spec fn stands_before(p: Pass, tokens: Seq<TokenView>, tail: Seq<TokenView>) -> bool {
    &&& p is Going
    &&& p.state().tokens == tokens + tail
    &&& tail.len() > 0 || p.state().complete
}

/// Whether `q` goes on behind `p` with the tokens `tail` ahead and with the
/// header and the tables of `p`.
pub open spec fn stands_behind(q: Pass, p: Pass, tail: Seq<TokenView>) -> bool {
    &&& q is Going
    &&& q.state().tokens == tail
    &&& p.state().echoes_to(q.state())
}

/// The parser accepts every operand.
pub proof fn lemma_operand_accepted(operand: Operand, p: Pass, tail: Seq<TokenView>)
    requires
        stands_before(p, operand.tokens(), tail),
        operand.well_formed(),
        operand.reads_only(p.state().symbols),
    ensures
        stands_behind(p.unary(), p, tail),
{
    let a = p.state();
    lemma_unary_echoes(p);
    match operand.sign {
        Some(kind) => {
            let q = p.emit_current().advance();
            assert(a.tokens[0] == token_of(kind));
            assert(a.tokens.drop_first() =~= seq![operand.value] + tail);
            assert(q.state().tokens[0] == operand.value);
            assert(q.state().tokens.drop_first() =~= tail);
        },
        None => {
            assert(a.tokens[0] == operand.value);
            assert(a.tokens.drop_first() =~= tail);
        },
    }
}

/// The parser accepts every run of operations behind an operand.
pub proof fn lemma_operations_accepted(rest: Seq<Operation>, p: Pass, tail: Seq<TokenView>)
    requires
        stands_before(p, operations_tokens(rest), tail),
        ends_expression(tail),
        forall|i: int|
            0 <= i < rest.len() ==> is_arithmetic((#[trigger] rest[i]).operator)
                && rest[i].operand.well_formed() && rest[i].operand.reads_only(
                p.state().symbols,
            ),
    ensures
        stands_behind(p.more_factors().more_terms(), p, tail),
    decreases rest.len(),
{
    let a = p.state();
    lemma_echoes_token(p);
    if rest.len() == 0 {
        assert(a.tokens =~= tail);
    } else {
        let operation = rest[0];
        let later = rest.drop_first();
        let behind = operations_tokens(later) + tail;
        let q = p.emit_current().advance();
        assert(a.tokens[0] == token_of(operation.operator));
        assert(a.tokens.drop_first() =~= operation.operand.tokens() + behind);
        lemma_operand_accepted(operation.operand, q, behind);
        let r = q.unary();
        assert forall|i: int| 0 <= i < later.len() implies is_arithmetic(
            (#[trigger] later[i]).operator,
        ) && later[i].operand.well_formed() && later[i].operand.reads_only(
            r.state().symbols,
        ) by {
            assert(later[i] == rest[i + 1]);
        }
        lemma_operations_accepted(later, r, tail);
        lemma_echoes_transitive(p, q, r);
        lemma_echoes_transitive(p, r, r.more_factors().more_terms());
        if operation.operator == TokenKind::ASTERISK || operation.operator == TokenKind::SLASH {
            assert(p.more_factors() == r.more_factors());
        } else {
            assert(p.more_factors() == p);
            assert(p.more_terms() == q.term().more_terms());
        }
    }
}

/// The parser accepts every expression: it takes exactly the tokens of the
/// expression and writes them to the body as they stand.
pub proof fn lemma_expression_accepted(value: Expression, p: Pass, tail: Seq<TokenView>)
    requires
        stands_before(p, value.tokens(), tail),
        ends_expression(tail),
        value.well_formed(),
        value.reads_only(p.state().symbols),
    ensures
        stands_behind(p.expression(), p, tail),
{
    let behind = operations_tokens(value.rest) + tail;
    assert(value.tokens() + tail =~= value.first.tokens() + behind);
    lemma_operand_accepted(value.first, p, behind);
    lemma_operations_accepted(value.rest, p.unary(), tail);
    lemma_expression_echoes(p);
}

/// The parser accepts every run of comparisons behind an expression.
pub proof fn lemma_compared_accepted(rest: Seq<Compared>, p: Pass, tail: Seq<TokenView>)
    requires
        stands_before(p, compared_tokens(rest), tail),
        ends_comparison(tail),
        forall|i: int|
            0 <= i < rest.len() ==> is_comparison((#[trigger] rest[i]).operator)
                && rest[i].value.well_formed() && rest[i].value.reads_only(p.state().symbols),
    ensures
        stands_behind(p.more_comparisons(), p, tail),
    decreases rest.len(),
{
    let a = p.state();
    lemma_echoes_token(p);
    if rest.len() == 0 {
        assert(a.tokens =~= tail);
    } else {
        let compared = rest[0];
        let later = rest.drop_first();
        let behind = compared_tokens(later) + tail;
        let q = p.emit_current().advance();
        assert(a.tokens[0] == token_of(compared.operator));
        assert(compared.value.tokens().len() > 0);
        assert(a.tokens.drop_first() =~= compared.value.tokens() + behind);
        lemma_compared_starts(later, tail);
        lemma_expression_accepted(compared.value, q, behind);
        let r = q.expression();
        assert forall|i: int| 0 <= i < later.len() implies is_comparison(
            (#[trigger] later[i]).operator,
        ) && later[i].value.well_formed() && later[i].value.reads_only(r.state().symbols) by {
            assert(later[i] == rest[i + 1]);
        }
        lemma_compared_accepted(later, r, tail);
        lemma_echoes_transitive(p, q, r);
        lemma_echoes_transitive(p, r, r.more_comparisons());
    }
}

/// A run of comparisons, and what may stand behind a comparison, can stand
/// behind an expression.
pub proof fn lemma_compared_starts(rest: Seq<Compared>, tail: Seq<TokenView>)
    requires
        ends_comparison(tail),
        forall|i: int| 0 <= i < rest.len() ==> is_comparison((#[trigger] rest[i]).operator),
    ensures
        ends_expression(compared_tokens(rest) + tail),
{
    if rest.len() > 0 {
        assert((compared_tokens(rest) + tail)[0] == token_of(rest[0].operator));
    }
}

/// The parser accepts every comparison: it takes exactly the tokens of the
/// comparison and writes them to the body as they stand.
pub proof fn lemma_comparison_accepted(condition: Comparison, p: Pass, tail: Seq<TokenView>)
    requires
        stands_before(p, condition.tokens(), tail),
        ends_comparison(tail),
        condition.well_formed(),
        condition.reads_only(p.state().symbols),
    ensures
        stands_behind(p.comparison(), p, tail),
{
    let behind = compared_tokens(condition.rest) + tail;
    assert(condition.tokens() + tail =~= condition.first.tokens() + behind);
    lemma_compared_starts(condition.rest, tail);
    lemma_expression_accepted(condition.first, p, behind);
    let left = p.expression();
    assert(behind[0] == token_of(condition.rest[0].operator));
    lemma_compared_accepted(condition.rest, left, tail);
    assert(p.comparison() == left.more_comparisons());
    lemma_echoes_transitive(p, left, left.more_comparisons());
}

/// One more than `extra` line terminators, followed by `tail`.
pub open spec fn newlines_then(extra: nat, tail: Seq<TokenView>) -> Seq<TokenView>
    decreases extra,
{
    seq![token_of(TokenKind::NEWLINE)] + if extra == 0 {
        tail
    } else {
        newlines_then((extra - 1) as nat, tail)
    }
}

/// A statement. `blank` counts the empty lines behind it, `opening` those
/// behind the line that opens a block.
pub enum Statement {
    PrintText { text: TokenView, blank: nat },
    PrintValue { value: Expression, blank: nat },
    If { condition: Comparison, opening: nat, body: Seq<Statement>, blank: nat },
    While { condition: Comparison, opening: nat, body: Seq<Statement>, blank: nat },
    Label { name: TokenView, blank: nat },
    Goto { name: TokenView, blank: nat },
    Let { name: TokenView, value: Expression, blank: nat },
    Input { name: TokenView, blank: nat },
}

/// The tokens that spell the statement, followed by `tail`.
pub open spec fn statement_then(statement: Statement, tail: Seq<TokenView>) -> Seq<TokenView>
    decreases statement,
{
    match statement {
        Statement::PrintText { text, blank } => seq![token_of(TokenKind::PRINT)] + (seq![text]
            + newlines_then(blank, tail)),
        Statement::PrintValue { value, blank } => seq![token_of(TokenKind::PRINT)] + (
        value.tokens() + newlines_then(blank, tail)),
        Statement::If { condition, opening, body, blank } => seq![token_of(TokenKind::IF)] + (
        condition.tokens() + (seq![token_of(TokenKind::THEN)] + newlines_then(
            opening,
            block_then(body, seq![token_of(TokenKind::ENDIF)] + newlines_then(blank, tail)),
        ))),
        Statement::While { condition, opening, body, blank } => seq![
            token_of(TokenKind::WHILE),
        ] + (condition.tokens() + (seq![token_of(TokenKind::REPEAT)] + newlines_then(
            opening,
            block_then(body, seq![token_of(TokenKind::ENDWHILE)] + newlines_then(blank, tail)),
        ))),
        Statement::Label { name, blank } => seq![token_of(TokenKind::LABEL)] + (seq![name]
            + newlines_then(blank, tail)),
        Statement::Goto { name, blank } => seq![token_of(TokenKind::GOTO)] + (seq![name]
            + newlines_then(blank, tail)),
        Statement::Let { name, value, blank } => seq![token_of(TokenKind::LET)] + (seq![name] + (
        seq![token_of(TokenKind::EQ)] + (value.tokens() + newlines_then(blank, tail)))),
        Statement::Input { name, blank } => seq![token_of(TokenKind::INPUT)] + (seq![name]
            + newlines_then(blank, tail)),
    }
}

/// The tokens that spell the statements one after the other, followed by
/// `tail`.
pub open spec fn block_then(body: Seq<Statement>, tail: Seq<TokenView>) -> Seq<TokenView>
    decreases body,
{
    if body.len() == 0 {
        tail
    } else {
        statement_then(body[0], block_then(body.drop_first(), tail))
    }
}

/// The names that a program has introduced up to some point.
pub struct Tables {
    /// The variables assigned or read in so far.
    pub symbols: Seq<Seq<char>>,
    /// The labels declared so far.
    pub declared: Seq<Seq<char>>,
    /// The labels that jumps have named so far.
    pub gotoed: Seq<Seq<char>>,
}

/// `names` with `name` among them.
pub open spec fn with_name(names: Seq<Seq<char>>, name: Seq<char>) -> Seq<Seq<char>> {
    if names.contains(name) {
        names
    } else {
        names.push(name)
    }
}

/// Whether the statement is valid where the names of `before` are
/// introduced, and the names that are introduced behind it. A statement is
/// valid if its parts are of the right kinds, every variable that it reads is
/// assigned or read in before, in the statement itself at the earliest, and a
/// label that it declares is not declared before.
pub open spec fn checked_statement(statement: Statement, before: Tables) -> Option<Tables>
    decreases statement,
{
    match statement {
        Statement::PrintText { text, blank } => if text.kind == TokenKind::STRING {
            Some(before)
        } else {
            None
        },
        Statement::PrintValue { value, blank } => if value.well_formed() && value.reads_only(
            before.symbols,
        ) {
            Some(before)
        } else {
            None
        },
        Statement::If { condition, opening, body, blank } => if condition.well_formed()
            && condition.reads_only(before.symbols) {
            checked_block(body, before)
        } else {
            None
        },
        Statement::While { condition, opening, body, blank } => if condition.well_formed()
            && condition.reads_only(before.symbols) {
            checked_block(body, before)
        } else {
            None
        },
        Statement::Label { name, blank } => if name.kind == TokenKind::IDENT
            && !before.declared.contains(name.text) {
            Some(Tables { declared: before.declared.push(name.text), ..before })
        } else {
            None
        },
        Statement::Goto { name, blank } => if name.kind == TokenKind::IDENT {
            Some(Tables { gotoed: with_name(before.gotoed, name.text), ..before })
        } else {
            None
        },
        Statement::Let { name, value, blank } => if name.kind == TokenKind::IDENT
            && value.well_formed() && value.reads_only(with_name(before.symbols, name.text)) {
            Some(Tables { symbols: with_name(before.symbols, name.text), ..before })
        } else {
            None
        },
        Statement::Input { name, blank } => if name.kind == TokenKind::IDENT {
            Some(Tables { symbols: with_name(before.symbols, name.text), ..before })
        } else {
            None
        },
    }
}

/// Whether the statements are valid one after the other, and the names that
/// are introduced behind them.
pub open spec fn checked_block(body: Seq<Statement>, before: Tables) -> Option<Tables>
    decreases body,
{
    if body.len() == 0 {
        Some(before)
    } else {
        match checked_statement(body[0], before) {
            Some(between) => checked_block(body.drop_first(), between),
            None => None,
        }
    }
}

/// A program: line terminators, then statements.
pub struct Program {
    /// How many line terminators stand in front of the first statement.
    pub leading: nat,
    pub body: Seq<Statement>,
}

impl Program {
    /// The tokens that spell the program, up to the end of the text.
    pub open spec fn tokens(self) -> Seq<TokenView> {
        let body = block_then(self.body, Seq::empty());
        if self.leading == 0 {
            body
        } else {
            newlines_then((self.leading - 1) as nat, body)
        }
    }

    /// A program is valid if its statements are, starting with no name
    /// introduced, and if every label that a jump names is declared somewhere
    /// in it.
    pub open spec fn valid(self) -> bool {
        let empty = Tables { symbols: Seq::empty(), declared: Seq::empty(), gotoed: Seq::empty() };
        &&& checked_block(self.body, empty) matches Some(tables)
        &&& forall|i: int|
            0 <= i < tables.gotoed.len() ==> tables.declared.contains(#[trigger] tables.gotoed[i])
    }
}

/// The tables of a compilation.
pub open spec fn tables_of(state: Compilation) -> Tables {
    Tables { symbols: state.symbols, declared: state.declared, gotoed: state.gotoed }
}

/// Whether the pass goes on with exactly the tokens `tokens` ahead, and the
/// end of the text behind them.
pub open spec fn stands_at(p: Pass, tokens: Seq<TokenView>) -> bool {
    &&& p is Going
    &&& p.state().tokens == tokens
    &&& p.state().complete
}

/// Whether the tokens `tail` can stand behind a line: they do not start with
/// a line terminator.
pub open spec fn ends_line(tail: Seq<TokenView>) -> bool {
    tail.len() > 0 ==> tail[0].kind != TokenKind::NEWLINE
}

/// Whether a token of kind `end` ends the block in front of `tail`: it is
/// the first of `tail`, or `tail` is empty and `end` is the end of the text.
pub open spec fn ends_block(tail: Seq<TokenView>, end: TokenKind) -> bool {
    &&& end == TokenKind::ENDIF || end == TokenKind::ENDWHILE || end == TokenKind::EOF
    &&& if tail.len() > 0 {
        tail[0].kind == end
    } else {
        end == TokenKind::EOF
    }
}

/// A run of line terminators is passed over as a whole, and nothing but the
/// tokens ahead changes.
pub proof fn lemma_newlines_accepted(extra: nat, p: Pass, tail: Seq<TokenView>)
    requires
        stands_at(p, newlines_then(extra, tail)),
        ends_line(tail),
    ensures
        stands_at(p.skip_newlines(), tail),
        stands_at(p.nl(), tail),
        p.nl() == p.skip_newlines(),
        p.state().reads_to(p.nl().state()),
    decreases extra,
{
    let a = p.state();
    let q = p.advance();
    assert(a.tokens[0] == token_of(TokenKind::NEWLINE));
    assert(p.at(TokenKind::NEWLINE));
    assert(p.skip_newlines() == q.skip_newlines());
    assert(a.tokens.skip(0) =~= a.tokens);
    assert(a.tokens.skip(1) =~= a.tokens.drop_first());
    if extra == 0 {
        assert(a.tokens.drop_first() =~= tail);
        assert(q.skip_newlines() == q);
    } else {
        assert(a.tokens.drop_first() =~= newlines_then((extra - 1) as nat, tail));
        lemma_newlines_accepted((extra - 1) as nat, q, tail);
        let k = q.state().tokens.len() - tail.len();
        assert(a.tokens.skip(1).skip(k) =~= a.tokens.skip(1 + k));
    }
}

/// A statement starts with its keyword, and so does a block that is not
/// empty; an empty block is nothing.
pub proof fn lemma_starts_with_keyword(body: Seq<Statement>, tail: Seq<TokenView>)
    ensures
        body.len() == 0 ==> block_then(body, tail) == tail,
        body.len() > 0 ==> block_then(body, tail).len() > 0 && ({
            let kind = block_then(body, tail)[0].kind;
            kind == TokenKind::PRINT || kind == TokenKind::IF || kind == TokenKind::WHILE || kind
                == TokenKind::LABEL || kind == TokenKind::GOTO || kind == TokenKind::LET || kind
                == TokenKind::INPUT
        }),
{
    if body.len() > 0 {
        let behind = block_then(body.drop_first(), tail);
        let all = statement_then(body[0], behind);
        match body[0] {
            Statement::PrintText { text, blank } => {
                assert(all[0] == token_of(TokenKind::PRINT));
            },
            Statement::PrintValue { value, blank } => {
                assert(all[0] == token_of(TokenKind::PRINT));
            },
            Statement::If { condition, opening, body, blank } => {
                assert(all[0] == token_of(TokenKind::IF));
            },
            Statement::While { condition, opening, body, blank } => {
                assert(all[0] == token_of(TokenKind::WHILE));
            },
            Statement::Label { name, blank } => {
                assert(all[0] == token_of(TokenKind::LABEL));
            },
            Statement::Goto { name, blank } => {
                assert(all[0] == token_of(TokenKind::GOTO));
            },
            Statement::Let { name, value, blank } => {
                assert(all[0] == token_of(TokenKind::LET));
            },
            Statement::Input { name, blank } => {
                assert(all[0] == token_of(TokenKind::INPUT));
            },
        }
    }
}

/// The parser accepts `PRINT` with a string.
pub proof fn lemma_print_text_accepted(p: Pass, text: TokenView, blank: nat, tail: Seq<TokenView>)
    requires
        stands_at(p, seq![token_of(TokenKind::PRINT)] + (seq![text] + newlines_then(blank, tail))),
        ends_line(tail),
        text.kind == TokenKind::STRING,
    ensures
        stands_at(p.statement(), tail),
        tables_of(p.statement().state()) == tables_of(p.state()),
{
    let a = p.state();
    let next = p.advance();
    let line = newlines_then(blank, tail);
    assert(a.tokens.drop_first() =~= seq![text] + line);
    let b = next.emit_line("printf(\""@ + next.text() + "\\n\");"@).advance();
    assert(b.state().tokens =~= line);
    assert(b == next.print_rest());
    lemma_newlines_accepted(blank, b, tail);
}

/// The parser accepts `PRINT` with an expression.
pub proof fn lemma_print_value_accepted(
    p: Pass,
    value: Expression,
    blank: nat,
    tail: Seq<TokenView>,
)
    requires
        stands_at(
            p,
            seq![token_of(TokenKind::PRINT)] + (value.tokens() + newlines_then(blank, tail)),
        ),
        ends_line(tail),
        value.well_formed(),
        value.reads_only(p.state().symbols),
    ensures
        stands_at(p.statement(), tail),
        tables_of(p.statement().state()) == tables_of(p.state()),
{
    let a = p.state();
    let next = p.advance();
    let line = newlines_then(blank, tail);
    assert(a.tokens.drop_first() =~= value.tokens() + line);
    assert((value.tokens() + line)[0] == value.first.tokens()[0]);
    assert(!next.at(TokenKind::STRING));
    let b = next.emit("printf(\"%.2f\\n\", (float)("@);
    lemma_expression_accepted(value, b, line);
    let c = b.expression().emit_line("));"@);
    assert(c == next.print_rest());
    lemma_newlines_accepted(blank, c, tail);
}

/// The parser accepts `LABEL` with a name that is not declared.
pub proof fn lemma_label_accepted(p: Pass, name: TokenView, blank: nat, tail: Seq<TokenView>)
    requires
        stands_at(p, seq![token_of(TokenKind::LABEL)] + (seq![name] + newlines_then(blank, tail))),
        ends_line(tail),
        name.kind == TokenKind::IDENT,
        !p.state().declared.contains(name.text),
    ensures
        stands_at(p.statement(), tail),
        tables_of(p.statement().state()) == (Tables {
            declared: p.state().declared.push(name.text),
            ..tables_of(p.state())
        }),
{
    let a = p.state();
    let next = p.advance();
    let line = newlines_then(blank, tail);
    assert(a.tokens.drop_first() =~= seq![name] + line);
    let b = next.label_rest();
    assert(b.state().tokens =~= line);
    lemma_newlines_accepted(blank, b, tail);
}

/// The parser accepts `GOTO` with a name.
pub proof fn lemma_goto_accepted(p: Pass, name: TokenView, blank: nat, tail: Seq<TokenView>)
    requires
        stands_at(p, seq![token_of(TokenKind::GOTO)] + (seq![name] + newlines_then(blank, tail))),
        ends_line(tail),
        name.kind == TokenKind::IDENT,
    ensures
        stands_at(p.statement(), tail),
        tables_of(p.statement().state()) == (Tables {
            gotoed: with_name(p.state().gotoed, name.text),
            ..tables_of(p.state())
        }),
{
    let a = p.state();
    let next = p.advance();
    let line = newlines_then(blank, tail);
    assert(a.tokens.drop_first() =~= seq![name] + line);
    let b = next.goto_rest();
    assert(b.state().tokens =~= line);
    lemma_newlines_accepted(blank, b, tail);
}

/// The parser accepts `LET` with a name and an expression that reads only
/// what is declared, the name itself included.
pub proof fn lemma_let_accepted(
    p: Pass,
    name: TokenView,
    value: Expression,
    blank: nat,
    tail: Seq<TokenView>,
)
    requires
        stands_at(
            p,
            seq![token_of(TokenKind::LET)] + (seq![name] + (seq![token_of(TokenKind::EQ)] + (
            value.tokens() + newlines_then(blank, tail)))),
        ),
        ends_line(tail),
        name.kind == TokenKind::IDENT,
        value.well_formed(),
        value.reads_only(with_name(p.state().symbols, name.text)),
    ensures
        stands_at(p.statement(), tail),
        tables_of(p.statement().state()) == (Tables {
            symbols: with_name(p.state().symbols, name.text),
            ..tables_of(p.state())
        }),
{
    let a = p.state();
    let next = p.advance();
    let line = newlines_then(blank, tail);
    let behind = seq![token_of(TokenKind::EQ)] + (value.tokens() + line);
    assert(a.tokens.drop_first() =~= seq![name] + behind);
    let b = next.declare_variable(next.text()).emit(next.text() + " = "@).expect(
        TokenKind::IDENT,
    ).advance();
    assert(b.state().tokens =~= behind);
    let c = b.expect(TokenKind::EQ).advance();
    assert(c.state().tokens =~= value.tokens() + line);
    lemma_expression_accepted(value, c, line);
    let d = c.expression().emit_line(";"@);
    assert(d == next.let_rest());
    lemma_newlines_accepted(blank, d, tail);
}

/// The parser accepts `INPUT` with a name.
pub proof fn lemma_input_accepted(p: Pass, name: TokenView, blank: nat, tail: Seq<TokenView>)
    requires
        stands_at(p, seq![token_of(TokenKind::INPUT)] + (seq![name] + newlines_then(blank, tail))),
        ends_line(tail),
        name.kind == TokenKind::IDENT,
    ensures
        stands_at(p.statement(), tail),
        tables_of(p.statement().state()) == (Tables {
            symbols: with_name(p.state().symbols, name.text),
            ..tables_of(p.state())
        }),
{
    let a = p.state();
    let next = p.advance();
    let line = newlines_then(blank, tail);
    assert(a.tokens.drop_first() =~= seq![name] + line);
    let b = next.input_rest();
    assert(b.state().tokens =~= line);
    lemma_newlines_accepted(blank, b, tail);
}

/// The parser accepts every valid statement: it takes exactly the tokens of
/// the statement, and the tables behind it hold the names that the statement
/// introduces.
pub proof fn lemma_statement_accepted(statement: Statement, p: Pass, tail: Seq<TokenView>)
    requires
        stands_at(p, statement_then(statement, tail)),
        ends_line(tail),
        checked_statement(statement, tables_of(p.state())) is Some,
    ensures
        stands_at(p.statement(), tail),
        tables_of(p.statement().state()) == checked_statement(
            statement,
            tables_of(p.state()),
        )->0,
    decreases statement, 2nat,
{
    match statement {
        Statement::PrintText { text, blank } => {
            lemma_print_text_accepted(p, text, blank, tail);
        },
        Statement::PrintValue { value, blank } => {
            lemma_print_value_accepted(p, value, blank, tail);
        },
        Statement::If { condition, opening, body, blank } => {
            assert(p.state().tokens[0] == token_of(TokenKind::IF));
            lemma_block_statement_accepted(
                p,
                TokenKind::IF,
                TokenKind::THEN,
                TokenKind::ENDIF,
                "if("@,
                "}{"@,
                condition,
                opening,
                body,
                blank,
                tail,
            );
        },
        Statement::While { condition, opening, body, blank } => {
            assert(p.state().tokens[0] == token_of(TokenKind::WHILE));
            lemma_block_statement_accepted(
                p,
                TokenKind::WHILE,
                TokenKind::REPEAT,
                TokenKind::ENDWHILE,
                "while("@,
                "){"@,
                condition,
                opening,
                body,
                blank,
                tail,
            );
        },
        Statement::Label { name, blank } => {
            lemma_label_accepted(p, name, blank, tail);
        },
        Statement::Goto { name, blank } => {
            lemma_goto_accepted(p, name, blank, tail);
        },
        Statement::Let { name, value, blank } => {
            lemma_let_accepted(p, name, value, blank, tail);
        },
        Statement::Input { name, blank } => {
            lemma_input_accepted(p, name, blank, tail);
        },
    }
}

/// The parser accepts every valid `IF` and `WHILE` statement, whose keywords
/// are `keyword`, `opener` and `end`.
pub proof fn lemma_block_statement_accepted(
    p: Pass,
    keyword: TokenKind,
    opener: TokenKind,
    end: TokenKind,
    head: Seq<char>,
    brace: Seq<char>,
    condition: Comparison,
    opening: nat,
    body: Seq<Statement>,
    blank: nat,
    tail: Seq<TokenView>,
)
    requires
        keyword == TokenKind::IF && opener == TokenKind::THEN && end == TokenKind::ENDIF
            || keyword == TokenKind::WHILE && opener == TokenKind::REPEAT && end
            == TokenKind::ENDWHILE,
        stands_at(
            p,
            seq![token_of(keyword)] + (condition.tokens() + (seq![token_of(opener)]
                + newlines_then(
                opening,
                block_then(body, seq![token_of(end)] + newlines_then(blank, tail)),
            ))),
        ),
        ends_line(tail),
        condition.well_formed(),
        condition.reads_only(p.state().symbols),
        checked_block(body, tables_of(p.state())) is Some,
    ensures
        ({
            let q = p.advance().emit(head).condition(opener, brace).block_and_end(end).nl();
            &&& stands_at(q, tail)
            &&& tables_of(q.state()) == checked_block(body, tables_of(p.state()))->0
        }),
    decreases body, 1nat,
{
    let a = p.state();
    let closing = seq![token_of(end)] + newlines_then(blank, tail);
    let inside = block_then(body, closing);
    let opened = seq![token_of(opener)] + newlines_then(opening, inside);
    let next = p.advance().emit(head);
    assert(a.tokens.drop_first() =~= condition.tokens() + opened);
    lemma_comparison_accepted(condition, next, opened);
    let b = next.comparison().expect(opener).advance();
    assert(b.state().tokens =~= newlines_then(opening, inside));
    lemma_starts_with_keyword(body, closing);
    lemma_newlines_accepted(opening, b, inside);
    let c = b.nl().emit_line(brace);
    assert(c == next.condition(opener, brace));
    lemma_block_accepted(body, c, closing, end);
    let d = c.block(end).expect(end).emit_line("}"@).advance();
    assert(d.state().tokens =~= newlines_then(blank, tail));
    assert(d == c.block_and_end(end));
    lemma_newlines_accepted(blank, d, tail);
}

/// The parser accepts every block of valid statements up to the token that
/// ends the block.
pub proof fn lemma_block_accepted(
    body: Seq<Statement>,
    p: Pass,
    tail: Seq<TokenView>,
    end: TokenKind,
)
    requires
        stands_at(p, block_then(body, tail)),
        ends_block(tail, end),
        checked_block(body, tables_of(p.state())) is Some,
    ensures
        stands_at(p.block(end), tail),
        tables_of(p.block(end).state()) == checked_block(body, tables_of(p.state()))->0,
    decreases body, 0nat,
{
    lemma_starts_with_keyword(body, tail);
    if body.len() > 0 {
        let later = body.drop_first();
        let behind = block_then(later, tail);
        lemma_starts_with_keyword(later, tail);
        lemma_block_follows(p, end);
        lemma_statement_accepted(body[0], p, behind);
        lemma_block_accepted(later, p.statement(), tail, end);
    }
}

/// Every valid program compiles: whatever the buffers hold at the start, the
/// translation of the tokens of a valid program goes through to the end.
pub proof fn lemma_valid_program_compiles(program: Program, header: Seq<char>, code: Seq<char>)
    requires
        program.valid(),
    ensures
        Pass::start(program.tokens(), true, header, code).program() is Going,
{
    let p = Pass::start(program.tokens(), true, header, code);
    let body = block_then(program.body, Seq::empty());
    let a = p.header_line("#include <stdio.h>"@).header_line("int main(void){"@);
    lemma_starts_with_keyword(program.body, Seq::empty());
    if program.leading == 0 {
        assert(a.skip_newlines() == a);
    } else {
        lemma_newlines_accepted((program.leading - 1) as nat, a, body);
    }
    let b = a.skip_newlines();
    let empty = Tables { symbols: Seq::empty(), declared: Seq::empty(), gotoed: Seq::empty() };
    assert(tables_of(b.state()) == empty);
    let tables = checked_block(program.body, empty)->0;
    lemma_block_accepted(program.body, b, Seq::empty(), TokenKind::EOF);
    let c = b.block(TokenKind::EOF).emit_line("return 0;"@).emit_line("}"@);
    assert(c == p.program_body());
    let names = c.state().gotoed;
    let known = c.state().declared;
    lemma_first_missing(names, known);
    if first_missing(names, known) is Some {
        let name = first_missing(names, known)->0;
        let i = choose|i: int| 0 <= i < names.len() && names[i] == name;
        assert(tables_of(c.state()) == tables);
        assert(tables.declared.contains(tables.gotoed[i]));
    }
}

/// Every valid program compiles from its text: where the scanner reads the
/// tokens of a valid program from the source and reaches its end, the
/// compilation of the source succeeds.
pub proof fn lemma_valid_source_compiles(source: Seq<char>, program: Program)
    requires
        program.valid(),
        ahead(source.push('\n'), 0).complete,
        ahead(source.push('\n'), 0).tokens == program.tokens(),
    ensures
        translation(source) is Going,
{
    lemma_valid_program_compiles(program, Seq::empty(), Seq::empty());
}

} // verus!
