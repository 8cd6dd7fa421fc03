//! What holds of every compilation.
use vstd::prelude::*;
use crate::chars::{CharClass, in_class};
use crate::error::Failure;
use crate::grammar::{
    Compilation, Pass, declaration, declarations, first_missing, lemma_expression_echoes,
    lemma_expression_follows, lemma_newlines_only_read, lexemes, lemma_block_follows,
    lemma_failure_is_final, lemma_follows_transitive, lemma_goto_rest_follows,
    lemma_input_rest_follows, lemma_label_rest_follows, lemma_let_rest_follows,
    lemma_nl_follows, lemma_prefix_contains, lemma_skip_newlines_follows, lemma_steps_after,
    lemma_steps_follow, prologue,
};
use crate::lexer::{Scan, ahead, char_at, found, lemma_run_end, run_end, scan, token_start};
use crate::token::{TokenKind, eof_token};
use crate::translation;

verus! {

/// The first missing name is one of the names and is not known; where none is
/// missing, every name is known.
pub proof fn lemma_first_missing(names: Seq<Seq<char>>, known: Seq<Seq<char>>)
    ensures
        match first_missing(names, known) {
            Some(name) => names.contains(name) && !known.contains(name),
            None => forall|i: int| 0 <= i < names.len() ==> known.contains(#[trigger] names[i]),
        },
    decreases names.len(),
{
    if names.len() > 0 {
        if known.contains(names[0]) {
            let rest = names.drop_first();
            lemma_first_missing(rest, known);
            match first_missing(rest, known) {
                Some(name) => {
                    let i = choose|i: int| 0 <= i < rest.len() && rest[i] == name;
                    assert(names[i + 1] == name);
                },
                None => {
                    assert forall|i: int| 0 <= i < names.len() implies known.contains(
                        #[trigger] names[i],
                    ) by {
                        if i > 0 {
                            assert(names[i] == rest[i - 1]);
                        }
                    }
                },
            }
        } else {
            assert(names[0] == names[0]);
        }
    }
}

/// The statements of a program are read up to the end of the text. The
/// header of the result is the header from before, the two opening lines, and one
/// declaration for each variable that the program declared, in the order of
/// declaration; no variable is declared twice.
pub proof fn lemma_program_body(p: Pass)
    requires
        p is Going,
        p.program_body() is Going,
    ensures
        ({
            let a = p->Going_0;
            let s = p.program_body()->Going_0;
            &&& s.current().kind == TokenKind::EOF
            &&& a.symbols.is_prefix_of(s.symbols)
            &&& a.declared.is_prefix_of(s.declared)
            &&& a.gotoed.is_prefix_of(s.gotoed)
            &&& a.symbols.no_duplicates() ==> s.symbols.no_duplicates()
            &&& s.header == a.header + prologue() + declarations(
                s.symbols.skip(a.symbols.len() as int),
            )
        }),
{
    let a = p->Going_0;
    let b = p.header_line("#include <stdio.h>"@).header_line("int main(void){"@);
    let c = b.skip_newlines();
    let d = c.block(TokenKind::EOF);
    let e = d.emit_line("return 0;"@);
    lemma_skip_newlines_follows(b);
    lemma_block_follows(c, TokenKind::EOF);
    lemma_follows_transitive(b, c, d);
    lemma_steps_after(b, d);
    lemma_steps_after(b, e);
    assert(b->Going_0.header =~= a.header + prologue());
}

/// A program that compiles yields the two opening lines, then exactly one
/// declaration for each variable that it assigns or reads in, in the order of
/// their first use, then the body.
pub proof fn lemma_one_declaration_per_variable(source: Seq<char>)
    requires
        translation(source) is Going,
    ensures
        ({
            let s = translation(source)->Going_0;
            &&& s.symbols.no_duplicates()
            &&& s.header == prologue() + declarations(s.symbols)
            &&& s.output() == prologue() + declarations(s.symbols) + s.code
        }),
{
    let read = ahead(source.push('\n'), 0);
    let first = Pass::start(
        read.tokens,
        read.complete,
        Seq::<char>::empty(),
        Seq::<char>::empty(),
    );
    lemma_program_body(first);
    let s = translation(source)->Going_0;
    assert(s.symbols.skip(0) =~= s.symbols);
    assert(Seq::<char>::empty() + prologue() =~= prologue());
}

/// A variable is declared by the first `LET` or `INPUT` that names it: after
/// such a statement the variable is among the symbols.
pub proof fn lemma_assignment_declares(p: Pass)
    requires
        p.at(TokenKind::LET) || p.at(TokenKind::INPUT),
        p.statement() is Going,
    ensures
        p.statement()->Going_0.symbols.contains(p.advance().text()),
{
    let next = p.advance();
    let rest = if p.at(TokenKind::LET) {
        next.let_rest()
    } else {
        next.input_rest()
    };
    lemma_let_rest_follows(next);
    lemma_input_rest_follows(next);
    lemma_nl_follows(rest);
    lemma_prefix_contains(
        rest->Going_0.symbols,
        p.statement()->Going_0.symbols,
        next.text(),
    );
}

/// What is declared stays declared: a variable or label that a state holds
/// is held by every state that it leads to.
pub proof fn lemma_tables_grow(a: Compilation, b: Compilation, name: Seq<char>)
    requires
        a.leads_to(b),
    ensures
        a.symbols.contains(name) ==> b.symbols.contains(name),
        a.declared.contains(name) ==> b.declared.contains(name),
        a.gotoed.contains(name) ==> b.gotoed.contains(name),
{
    if a.symbols.contains(name) {
        lemma_prefix_contains(a.symbols, b.symbols, name);
    }
    if a.declared.contains(name) {
        lemma_prefix_contains(a.declared, b.declared, name);
    }
    if a.gotoed.contains(name) {
        lemma_prefix_contains(a.gotoed, b.gotoed, name);
    }
}

/// A variable is read only after it was declared: where an operand is an
/// identifier and the compilation goes on, the identifier is among the
/// symbols.
pub proof fn lemma_read_is_declared(p: Pass)
    requires
        p.at(TokenKind::IDENT),
        p.primary() is Going,
    ensures
        p->Going_0.symbols.contains(p.text()),
{
}

/// Reading an identifier that is not a declared variable fails at that
/// identifier, in whichever rule the read stands first.
pub proof fn lemma_undeclared_read_fails(p: Pass)
    requires
        p.at(TokenKind::IDENT),
        !p->Going_0.symbols.contains(p.text()),
    ensures
        p.primary() == Pass::Failed(
            p->Going_0,
            Failure::UndeclaredVariable { name: p.text() },
        ),
        p.unary() == p.primary(),
        p.term() == p.primary(),
        p.expression() == p.primary(),
        p.comparison() == p.primary(),
{
}

/// `PRINT`, `IF` or `WHILE` in front of an identifier that is not a declared
/// variable fails with that identifier.
pub proof fn lemma_undeclared_read_fails_in_statement(p: Pass)
    requires
        p.at(TokenKind::PRINT) || p.at(TokenKind::IF) || p.at(TokenKind::WHILE),
        p.advance().at(TokenKind::IDENT),
        !p.advance()->Going_0.symbols.contains(p.advance().text()),
    ensures
        p.statement().failure() == Some(
            Failure::UndeclaredVariable { name: p.advance().text() },
        ),
{
    let next = p.advance();
    lemma_undeclared_read_fails(next);
    lemma_undeclared_read_fails(next.emit("printf(\"%.2f\\n\", (float)("@));
    lemma_undeclared_read_fails(next.emit("if("@));
    lemma_undeclared_read_fails(next.emit("while("@));
    lemma_failure_is_final(p.statement());
}

/// A `LABEL` statement that succeeds declares its label.
pub proof fn lemma_label_declares(p: Pass)
    requires
        p.at(TokenKind::LABEL),
        p.statement() is Going,
    ensures
        p.statement()->Going_0.declared.contains(p.advance().text()),
{
    let next = p.advance();
    lemma_label_rest_follows(next);
    lemma_nl_follows(next.label_rest());
    lemma_prefix_contains(
        next.label_rest()->Going_0.declared,
        p.statement()->Going_0.declared,
        next.text(),
    );
}

/// A `LABEL` statement for a label that is declared already fails with that
/// label.
pub proof fn lemma_duplicate_label_fails(p: Pass)
    requires
        p.at(TokenKind::LABEL),
        p.advance() is Going,
        p.advance()->Going_0.declared.contains(p.advance().text()),
    ensures
        p.statement() == Pass::Failed(
            p.advance()->Going_0,
            Failure::DuplicateLabel { name: p.advance().text() },
        ),
{
}

/// Declaring a label twice fails at the second declaration: where a `LABEL`
/// statement has succeeded at `first`, a `LABEL` statement for the same name
/// at any later state `second` fails with that name.
pub proof fn lemma_second_declaration_fails(first: Pass, second: Pass)
    requires
        first.at(TokenKind::LABEL),
        first.statement() is Going,
        second is Going,
        first.statement()->Going_0.leads_to(second->Going_0),
        second.at(TokenKind::LABEL),
        second.advance() is Going,
        second.advance().text() == first.advance().text(),
    ensures
        second.statement() == Pass::Failed(
            second.advance()->Going_0,
            Failure::DuplicateLabel { name: first.advance().text() },
        ),
{
    let name = first.advance().text();
    lemma_label_declares(first);
    lemma_tables_grow(first.statement()->Going_0, second->Going_0, name);
    lemma_steps_follow(second);
    lemma_tables_grow(second->Going_0, second.advance()->Going_0, name);
    lemma_duplicate_label_fails(second);
}

/// A `GOTO` statement that succeeds records its label as the target of a
/// jump.
pub proof fn lemma_goto_references(p: Pass)
    requires
        p.at(TokenKind::GOTO),
        p.statement() is Going,
    ensures
        p.statement()->Going_0.gotoed.contains(p.advance().text()),
{
    let next = p.advance();
    lemma_goto_rest_follows(next);
    lemma_nl_follows(next.goto_rest());
    lemma_prefix_contains(
        next.goto_rest()->Going_0.gotoed,
        p.statement()->Going_0.gotoed,
        next.text(),
    );
}

/// A program with a jump to a label that it declares nowhere fails, with a
/// label that a jump names and the program does not declare. It does so
/// wherever the jump and the declarations stand, since the tables are looked
/// at only when all statements are read.
pub proof fn lemma_undeclared_label_fails(p: Pass, name: Seq<char>)
    requires
        p.program_body() is Going,
        p.program_body()->Going_0.gotoed.contains(name),
        !p.program_body()->Going_0.declared.contains(name),
    ensures
        ({
            let s = p.program_body()->Going_0;
            &&& p.program() matches Pass::Failed(
                state,
                Failure::UndeclaredLabel { name: missing },
            )
            &&& state == s
            &&& s.gotoed.contains(missing)
            &&& !s.declared.contains(missing)
        }),
{
    let s = p.program_body()->Going_0;
    lemma_first_missing(s.gotoed, s.declared);
    if first_missing(s.gotoed, s.declared) is None {
        let i = choose|i: int| 0 <= i < s.gotoed.len() && s.gotoed[i] == name;
        assert(s.declared.contains(s.gotoed[i]));
    }
}

/// A program in which every jump goes to a declared label passes the check
/// of the labels.
pub proof fn lemma_declared_labels_pass(p: Pass)
    requires
        p.program_body() is Going,
        forall|name: Seq<char>| #[trigger]
            p.program_body()->Going_0.gotoed.contains(name)
                ==> p.program_body()->Going_0.declared.contains(name),
    ensures
        p.program() == p.program_body(),
{
    let s = p.program_body()->Going_0;
    lemma_first_missing(s.gotoed, s.declared);
}

/// A comment yields no token of its own. Where a `#` follows the blanks, the
/// scanner passes over everything up to the end of that line and returns the
/// line terminator there, or the end-of-file token where the text ends
/// first.
pub proof fn lemma_comment_yields_line_end(src: Seq<char>, pos: int)
    requires
        0 <= pos <= src.len(),
        char_at(src, run_end(src, pos, CharClass::Blank)) == '#',
    ensures
        ({
            let start = run_end(src, pos, CharClass::Blank);
            let end = token_start(src, pos);
            &&& pos <= start < end <= src.len()
            &&& forall|i: int| start <= i < end ==> #[trigger] src[i] != '\n'
            &&& end < src.len() ==> src[end] == '\n' && scan(src, pos) == found(
                src,
                end,
                end + 1,
                TokenKind::NEWLINE,
                end + 1,
            )
            &&& end == src.len() ==> scan(src, pos) == (Scan::Found {
                token: eof_token(),
                next: end,
            })
        }),
{
    let start = run_end(src, pos, CharClass::Blank);
    lemma_run_end(src, pos, CharClass::Blank);
    lemma_run_end(src, start, CharClass::Comment);
    let end = run_end(src, start, CharClass::Comment);
    assert(in_class(CharClass::Comment, src[start]));
    assert forall|i: int| start <= i < end implies #[trigger] src[i] != '\n' by {
        assert(in_class(CharClass::Comment, src[i]));
    }
}

/// What a `LET` statement does when it is recognised. The variable behind
/// the keyword is declared if it was not: it joins the symbols, and its
/// declaration the header. The body gains the variable, ` = `, the expression
/// as it stands, and `;` with a line terminator. The expression is the tokens
/// between the `=` and the line terminator that ends the statement. The labels
/// are as they were.
pub proof fn lemma_let_statement(p: Pass)
    requires
        p.at(TokenKind::LET),
        p.statement() is Going,
    ensures
        ({
            let a = p.state();
            let s = p.statement().state();
            let v = a.tokens[1].text;
            let fresh = !a.symbols.contains(v);
            &&& a.tokens.len() > 3
            &&& a.tokens[1].kind == TokenKind::IDENT
            &&& a.tokens[2].kind == TokenKind::EQ
            &&& s.symbols == if fresh {
                a.symbols.push(v)
            } else {
                a.symbols
            }
            &&& s.header == if fresh {
                a.header + declaration(v)
            } else {
                a.header
            }
            &&& s.declared == a.declared
            &&& s.gotoed == a.gotoed
            &&& exists|n: int|
                {
                    &&& 0 < n
                    &&& 3 + n < a.tokens.len()
                    &&& (#[trigger] a.tokens[3 + n]).kind == TokenKind::NEWLINE
                    &&& s.code == (a.code + (v + " = "@) + lexemes(a.tokens.subrange(3, 3 + n))
                        + ";"@).push('\n')
                }
        }),
{
    let a = p.state();
    let next = p.advance();
    let v = next.text();
    let x1 = next.declare_variable(v);
    let x2 = x1.emit(v + " = "@);
    let x3 = x2.expect(TokenKind::IDENT);
    let x4 = x3.advance();
    let x5 = x4.expect(TokenKind::EQ);
    let x6 = x5.advance();
    let x7 = x6.expression();
    let x8 = x7.emit_line(";"@);
    assert(p.statement() == x8.nl());
    if next is Failed {
        lemma_failure_is_final(next);
    }
    if x3 is Failed {
        lemma_failure_is_final(x3);
    }
    if x4 is Failed {
        lemma_failure_is_final(x4);
    }
    if x5 is Failed {
        lemma_failure_is_final(x5);
    }
    if x6 is Failed {
        lemma_failure_is_final(x6);
    }
    if x7 is Failed {
        lemma_failure_is_final(x7);
    }
    assert(x6 is Going && x7 is Going && x8 is Going);
    let e0 = x6.state();
    let e1 = x7.state();
    assert(a.tokens.drop_first().drop_first().drop_first() =~= a.tokens.skip(3));
    assert(e0.tokens == a.tokens.skip(3));
    lemma_expression_echoes(x6);
    lemma_expression_follows(x6);
    let n = e0.tokens.len() - e1.tokens.len();
    assert(e0.tokens.take(n) =~= a.tokens.subrange(3, 3 + n));
    lemma_newlines_only_read(x8);
    assert(e1.tokens[0] == a.tokens[3 + n]);
    if !a.symbols.contains(v) {
        assert((a.header + ("float "@ + v + ";"@)).push('\n') =~= a.header + declaration(v));
    }
}

} // verus!
