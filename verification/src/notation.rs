//! Expressions as they are written in infix notation, and the proof that
//! the conversion and the evaluation read them as they are meant.

use crate::lexer::{
    all_accepted, has_left_operand, lemma_scan_inverts_spelling, scan, signs_have_left_operands,
    spelling, well_formed_tokens, Lexeme, TokenFamily, TokenType,
};
use crate::parser::{
    evaluation, lemma_evaluation_inverts_postfix, lemma_shunt_all_concat, outcome, postfix,
    priority_of, EvalError, ParseError, SyntaxError, Yard,
};
use crate::term::{kind_of, operator, Operation, Term};
use vstd::prelude::*;

verus! {

/// An expression as it is written: a literal, an expression in
/// parentheses, or two expressions with an operator between them.
pub enum Notation {
    Number(Seq<char>),
    Group(Box<Notation>),
    Binary(Operation, Box<Notation>, Box<Notation>),
}

/// The opening parenthesis.
pub open spec fn opening() -> Lexeme {
    Lexeme { kind: TokenType::LeftParenthesis, text: seq!['('] }
}

/// The closing parenthesis.
pub open spec fn closing() -> Lexeme {
    Lexeme { kind: TokenType::RightParenthesis, text: seq![')'] }
}

/// The priority of an operation's operator.
pub open spec fn priority(operation: Operation) -> int {
    priority_of(kind_of(operation)) as int
}

impl Notation {
    /// The tokens of the expression, from left to right.
    pub open spec fn tokens(self) -> Seq<Lexeme>
        decreases self,
    {
        match self {
            Notation::Number(digits) => seq![Lexeme { kind: TokenType::Int, text: digits }],
            Notation::Group(inner) => (seq![opening()] + inner.tokens()).push(closing()),
            Notation::Binary(operation, left, right) => left.tokens().push(operator(operation))
                + right.tokens(),
        }
    }

    /// The term that the expression means: parentheses group and leave no
    /// other trace.
    pub open spec fn term(self) -> Term
        decreases self,
    {
        match self {
            Notation::Number(digits) => Term::Number(digits),
            Notation::Group(inner) => inner.term(),
            Notation::Binary(operation, left, right) => Term::Binary(
                operation,
                Box::new(left.term()),
                Box::new(right.term()),
            ),
        }
    }

    /// How tightly the expression holds together: as its operator binds,
    /// and tighter than any operator where it has none outside parentheses.
    pub open spec fn binding(self) -> int {
        match self {
            Notation::Binary(operation, _, _) => priority(operation),
            _ => 256,
        }
    }

    /// Whether the expression can be written as it is without changing its
    /// meaning: the left side of an operator binds at least as tightly as
    /// the operator, and the right side binds tighter. So a sum on either
    /// side of a product stands in parentheses, and so does a sum or a
    /// difference on the right of a minus.
    pub open spec fn well_written(self) -> bool
        decreases self,
    {
        match self {
            Notation::Number(_) => true,
            Notation::Group(inner) => inner.well_written(),
            Notation::Binary(operation, left, right) => {
                &&& left.well_written()
                &&& right.well_written()
                &&& left.binding() >= priority(operation)
                &&& right.binding() > priority(operation)
            },
        }
    }

    /// Whether every operation of the expression stands in parentheses of
    /// its own, and nothing else does.
    pub open spec fn fully_parenthesized(self) -> bool
        decreases self,
    {
        match self {
            Notation::Number(_) => true,
            Notation::Group(inner) => match *inner {
                Notation::Binary(_, left, right) => left.fully_parenthesized()
                    && right.fully_parenthesized(),
                _ => false,
            },
            Notation::Binary(_, _, _) => false,
        }
    }

    /// What the conversion has emitted once it has read the expression.
    pub open spec fn emitted(self) -> Seq<Lexeme>
        decreases self,
    {
        match self {
            Notation::Number(digits) => seq![Lexeme { kind: TokenType::Int, text: digits }],
            Notation::Group(inner) => inner.term().postfix(),
            Notation::Binary(_, left, right) => left.term().postfix() + right.emitted(),
        }
    }

    /// The operators that still wait once the conversion has read the
    /// expression: those along its right edge, the outermost first.
    pub open spec fn pending(self) -> Seq<Lexeme>
        decreases self,
    {
        match self {
            Notation::Binary(operation, _, right) => seq![operator(operation)] + right.pending(),
            _ => Seq::empty(),
        }
    }
}

/// Whether an expression that binds as `binding` does, read on top of
/// `stack`, sends nothing of `stack` to the output.
pub open spec fn leaves_alone(stack: Seq<Lexeme>, binding: int) -> bool {
    stack.len() == 0 || stack.last().family() != TokenFamily::Operator || priority_of(
        stack.last().kind,
    ) < binding
}

/// Whether `waiting` holds only operators, each at least of priority
/// `floor`.
pub open spec fn operators_from(waiting: Seq<Lexeme>, floor: int) -> bool {
    forall|i: int|
        0 <= i < waiting.len() ==> (#[trigger] waiting[i]).family() == TokenFamily::Operator
            && priority_of(waiting[i].kind) >= floor
}

/// The operators that wait after a well-written expression bind at least as
/// tightly as it does, and what was emitted, followed by them from the last
/// to the first, is the postfix order of its term.
pub proof fn lemma_pending_completes_emitted(written: Notation)
    requires
        written.well_written(),
    ensures
        operators_from(written.pending(), written.binding()),
        written.emitted() + written.pending().reverse() == written.term().postfix(),
    decreases written,
{
    match written {
        Notation::Number(digits) => {
            assert(written.emitted() + written.pending().reverse() =~= written.term().postfix());
        },
        Notation::Group(inner) => {
            assert(written.emitted() + written.pending().reverse() =~= written.term().postfix());
        },
        Notation::Binary(operation, left, right) => {
            lemma_pending_completes_emitted(*right);
            let head = operator(operation);
            let tail = right.pending();
            let waiting = written.pending();
            assert forall|i: int| 0 <= i < waiting.len() implies (
            #[trigger] waiting[i]).family() == TokenFamily::Operator && priority_of(
                waiting[i].kind,
            ) >= written.binding() by {
                if i > 0 {
                    assert(waiting[i] == tail[i - 1]);
                }
            }
            assert(waiting.reverse() =~= tail.reverse().push(head));
            assert(right.term().postfix() == right.emitted() + tail.reverse());
            assert(written.emitted() + waiting.reverse() =~= (left.term().postfix()
                + right.term().postfix()).push(head));
        },
    }
}

/// An operator sends to the output, from the top down, the operators that
/// wait above `base` when it displaces each of them and not the top of
/// `base`.
pub proof fn lemma_pop_operators_clears(
    output: Seq<Lexeme>,
    base: Seq<Lexeme>,
    waiting: Seq<Lexeme>,
    op: TokenType,
)
    requires
        operators_from(waiting, priority_of(op) as int),
        leaves_alone(base, priority_of(op) as int),
    ensures
        (Yard { output, stack: base + waiting }).pop_operators(op) == (Yard {
            output: output + waiting.reverse(),
            stack: base,
        }),
    decreases waiting.len(),
{
    let yard = Yard { output, stack: base + waiting };
    if waiting.len() == 0 {
        assert(base + waiting =~= base);
        assert(output + waiting.reverse() =~= output);
    } else {
        let top = waiting.last();
        let below = waiting.drop_last();
        assert(yard.stack.last() == top);
        assert(top == waiting[waiting.len() - 1]);
        assert(yard.stack.drop_last() =~= base + below);
        assert forall|i: int| 0 <= i < below.len() implies (#[trigger] below[i]).family()
            == TokenFamily::Operator && priority_of(below[i].kind) >= priority_of(op) as int by {
            assert(below[i] == waiting[i]);
        }
        lemma_pop_operators_clears(output.push(top), base, below, op);
        assert(output.push(top) + below.reverse() =~= output + waiting.reverse());
    }
}

/// A closing parenthesis sends to the output, from the top down, the
/// operators that wait above the last opening one, and drops that one.
pub proof fn lemma_close_parenthesis_clears(
    output: Seq<Lexeme>,
    base: Seq<Lexeme>,
    waiting: Seq<Lexeme>,
    floor: int,
)
    requires
        operators_from(waiting, floor),
    ensures
        (Yard { output, stack: base.push(opening()) + waiting }).close_parenthesis() == Some(
            Yard { output: output + waiting.reverse(), stack: base },
        ),
    decreases waiting.len(),
{
    let yard = Yard { output, stack: base.push(opening()) + waiting };
    if waiting.len() == 0 {
        assert(base.push(opening()) + waiting =~= base.push(opening()));
        assert(base.push(opening()).drop_last() =~= base);
        assert(output + waiting.reverse() =~= output);
    } else {
        let top = waiting.last();
        let below = waiting.drop_last();
        assert(yard.stack.last() == top);
        assert(top == waiting[waiting.len() - 1]);
        assert(yard.stack.drop_last() =~= base.push(opening()) + below);
        assert forall|i: int| 0 <= i < below.len() implies (#[trigger] below[i]).family()
            == TokenFamily::Operator && priority_of(below[i].kind) >= floor by {
            assert(below[i] == waiting[i]);
        }
        lemma_close_parenthesis_clears(output.push(top), base, below, floor);
        assert(output.push(top) + below.reverse() =~= output + waiting.reverse());
    }
}

/// Converting one token is its effect.
pub proof fn lemma_shunt_all_of_one(yard: Yard, token: Lexeme)
    ensures
        yard.shunt_all(seq![token]) == yard.shunt(token),
{
    assert(seq![token].drop_last() =~= Seq::empty());
    assert(yard.shunt_all(Seq::empty()) == Some(yard));
}

/// Reading a well-written expression adds to the output what it emits and
/// to the stack what it leaves waiting, and touches nothing that was there,
/// provided the top of the stack is no operator that binds as tightly as
/// the expression.
pub proof fn lemma_reading_a_written_expression(yard: Yard, written: Notation)
    requires
        written.well_written(),
        leaves_alone(yard.stack, written.binding()),
    ensures
        yard.shunt_all(written.tokens()) == Some(
            Yard {
                output: yard.output + written.emitted(),
                stack: yard.stack + written.pending(),
            },
        ),
    decreases written,
{
    match written {
        Notation::Number(digits) => {
            let token = Lexeme { kind: TokenType::Int, text: digits };
            lemma_shunt_all_of_one(yard, token);
            assert(yard.output.push(token) =~= yard.output + written.emitted());
            assert(yard.stack =~= yard.stack + written.pending());
        },
        Notation::Group(inner) => {
            let opened = Yard { stack: yard.stack.push(opening()), ..yard };
            lemma_shunt_all_of_one(yard, opening());
            lemma_reading_a_written_expression(opened, *inner);
            lemma_shunt_all_concat(yard, seq![opening()], inner.tokens());
            let inside = Yard {
                output: yard.output + inner.emitted(),
                stack: opened.stack + inner.pending(),
            };
            lemma_pending_completes_emitted(*inner);
            lemma_close_parenthesis_clears(
                inside.output,
                yard.stack,
                inner.pending(),
                inner.binding(),
            );
            assert(written.tokens().drop_last() =~= seq![opening()] + inner.tokens());
            assert(inside.output + inner.pending().reverse() =~= yard.output + written.emitted());
            assert(yard.stack =~= yard.stack + written.pending());
        },
        Notation::Binary(operation, left, right) => {
            let sign = operator(operation);
            lemma_reading_a_written_expression(yard, *left);
            let after_left = Yard {
                output: yard.output + left.emitted(),
                stack: yard.stack + left.pending(),
            };
            lemma_pending_completes_emitted(*left);
            assert forall|i: int| 0 <= i < left.pending().len() implies (
            #[trigger] left.pending()[i]).family() == TokenFamily::Operator && priority_of(
                left.pending()[i].kind,
            ) >= priority_of(sign.kind) as int by {}
            lemma_pop_operators_clears(after_left.output, yard.stack, left.pending(), sign.kind);
            let pushed = Yard {
                output: after_left.output + left.pending().reverse(),
                stack: yard.stack.push(sign),
            };
            assert(left.tokens().push(sign).drop_last() =~= left.tokens());
            assert(yard.shunt_all(left.tokens().push(sign)) == Some(pushed));
            lemma_reading_a_written_expression(pushed, *right);
            lemma_shunt_all_concat(yard, left.tokens().push(sign), right.tokens());
            assert(pushed.output =~= yard.output + left.term().postfix());
            assert(pushed.output + right.emitted() =~= yard.output + written.emitted());
            assert(pushed.stack + right.pending() =~= yard.stack + written.pending());
        },
    }
}

/// The conversion reads infix notation as it is meant: the postfix form of
/// a well-written expression is the postfix order of its term, with
/// multiplication and division binding tighter than addition and
/// subtraction, operators of one priority grouping to the left, and
/// parentheses overriding both; and the evaluation of that form is the
/// term.
pub proof fn lemma_conversion_follows_notation(written: Notation)
    requires
        written.well_written(),
    ensures
        postfix(written.tokens()) == Ok::<Seq<Lexeme>, SyntaxError>(written.term().postfix()),
        evaluation(written.term().postfix()) == Ok::<Term, EvalError>(written.term()),
{
    let start = Yard::start();
    lemma_reading_a_written_expression(start, written);
    lemma_pending_completes_emitted(written);
    let end = Yard {
        output: start.output + written.emitted(),
        stack: start.stack + written.pending(),
    };
    assert(end.stack =~= written.pending());
    assert(end.output =~= written.emitted());
    lemma_evaluation_inverts_postfix(written.term());
}

/// A fully parenthesized expression is well written.
pub proof fn lemma_fully_parenthesized_is_well_written(written: Notation)
    requires
        written.fully_parenthesized(),
    ensures
        written.well_written(),
        written.binding() > 255,
    decreases written,
{
    match written {
        Notation::Group(inner) => match *inner {
            Notation::Binary(_, left, right) => {
                lemma_fully_parenthesized_is_well_written(*left);
                lemma_fully_parenthesized_is_well_written(*right);
                assert(inner.well_written());
            },
            _ => {},
        },
        _ => {},
    }
}

/// Where `tokens` are those of a fully parenthesized expression, neither
/// the conversion nor the evaluation of its result fails, and the result is
/// the term of the expression.
pub proof fn lemma_fully_parenthesized_never_fails(tokens: Seq<Lexeme>, written: Notation)
    requires
        written.fully_parenthesized(),
        tokens == written.tokens(),
    ensures
        postfix(tokens) is Ok,
        evaluation(postfix(tokens)->Ok_0) == Ok::<Term, EvalError>(written.term()),
{
    lemma_fully_parenthesized_is_well_written(written);
    lemma_conversion_follows_notation(written);
}

/// The tokens of an expression whose literals are runs of digits are well
/// formed; the last of them ends an operand, and each operator among them
/// follows one.
pub proof fn lemma_tokens_of_an_expression(written: Notation)
    requires
        written.term().well_formed(),
    ensures
        well_formed_tokens(written.tokens()),
        written.tokens().len() > 0,
        written.tokens().last().kind == TokenType::Int || written.tokens().last().kind
            == TokenType::RightParenthesis,
        forall|i: int|
            0 <= i < written.tokens().len() && (#[trigger] written.tokens()[i]).family()
                == TokenFamily::Operator ==> has_left_operand(written.tokens(), i),
    decreases written,
{
    let tokens = written.tokens();
    match written {
        Notation::Number(digits) => {},
        Notation::Group(inner) => {
            lemma_tokens_of_an_expression(*inner);
            let inside = inner.tokens();
            assert forall|i: int| 0 <= i < tokens.len() implies (#[trigger] tokens[i]).well_formed()
                && (tokens[i].family() == TokenFamily::Operator ==> has_left_operand(
                tokens,
                i,
            )) by {
                if 1 <= i <= inside.len() {
                    assert(tokens[i] == inside[i - 1]);
                    if tokens[i].family() == TokenFamily::Operator {
                        assert(has_left_operand(inside, i - 1));
                        assert(tokens[i - 1] == inside[i - 2]);
                    }
                }
            }
        },
        Notation::Binary(operation, left, right) => {
            lemma_tokens_of_an_expression(*left);
            lemma_tokens_of_an_expression(*right);
            let first = left.tokens();
            let second = right.tokens();
            assert forall|i: int| 0 <= i < tokens.len() implies (#[trigger] tokens[i]).well_formed()
                && (tokens[i].family() == TokenFamily::Operator ==> has_left_operand(
                tokens,
                i,
            )) by {
                if i < first.len() {
                    assert(tokens[i] == first[i]);
                    if tokens[i].family() == TokenFamily::Operator {
                        assert(has_left_operand(first, i));
                        assert(tokens[i - 1] == first[i - 1]);
                    }
                } else if i == first.len() {
                    assert(tokens[i - 1] == first.last());
                } else {
                    let k = i - first.len() - 1;
                    assert(tokens[i] == second[k]);
                    if tokens[i].family() == TokenFamily::Operator {
                        assert(has_left_operand(second, k));
                        assert(tokens[i - 1] == second[k - 1]);
                    }
                }
            }
            assert(tokens.last() == second.last());
        },
    }
}

/// From text to term: the spelling of a well-written expression whose
/// literals are runs of digits is accepted by the scanner, and the line of
/// tokens it gives comes to the term of the expression.
pub proof fn lemma_written_text_is_read_as_meant(written: Notation)
    requires
        written.well_written(),
        written.term().well_formed(),
    ensures
        all_accepted(spelling(written.tokens())),
        outcome(scan(spelling(written.tokens()))) == Some(
            Ok::<Term, ParseError>(written.term()),
        ),
{
    let tokens = written.tokens();
    lemma_tokens_of_an_expression(written);
    assert(signs_have_left_operands(tokens)) by {
        assert forall|i: int|
            0 <= i < tokens.len() && ((#[trigger] tokens[i]).kind == TokenType::Plus
                || tokens[i].kind == TokenType::Minus) implies has_left_operand(tokens, i) by {
            assert(tokens[i].family() == TokenFamily::Operator);
        }
    }
    lemma_scan_inverts_spelling(tokens);
    lemma_conversion_follows_notation(written);
    lemma_postfix_is_never_empty(written.term());
}

/// The postfix order of a term has at least one token.
pub proof fn lemma_postfix_is_never_empty(term: Term)
    ensures
        term.postfix().len() > 0,
{
}

} // verus!
