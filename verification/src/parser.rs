//! From infix tokens to postfix order, and from postfix order to a term.

use crate::lexer::{lexemes, well_formed_tokens, Lexeme, Token, TokenFamily, TokenType};
use crate::term::{operation_of, terms, Expr, Operation, Term};
use vstd::prelude::*;

verus! {

/// How operators of equal priority group.
#[derive(Debug, Copy, Clone, PartialEq, Eq, Structural)]
pub enum Associativity {
    Left,
    Right,
}

/// Why a run of tokens has no postfix form.
#[derive(Debug, Copy, Clone, PartialEq, Eq, Structural)]
pub enum SyntaxError {
    /// A closing parenthesis with no opening one before it.
    UnmatchedRightParenthesis,
    /// An opening parenthesis that is never closed.
    UnmatchedLeftParenthesis,
}

/// Every operator groups to the left.
pub open spec fn associativity_of(kind: TokenType) -> Associativity {
    Associativity::Left
}

/// Multiplication and division bind tighter than addition and subtraction;
/// a kind that is no operator has priority zero.
pub open spec fn priority_of(kind: TokenType) -> u8 {
    match kind {
        TokenType::Multiply | TokenType::Divide => 10,
        TokenType::Plus | TokenType::Minus => 5,
        _ => 0,
    }
}

/// Whether an incoming operator `o1` sends the operator `o2` on top of the
/// stack to the output before it is pushed itself.
pub open spec fn displaces(o1: TokenType, o2: TokenType) -> bool {
    ||| associativity_of(o1) == Associativity::Left && priority_of(o1) <= priority_of(o2)
    ||| associativity_of(o1) == Associativity::Right && priority_of(o1) < priority_of(o2)
}

/// The two sequences of the conversion: what has been emitted, and the
/// operators and opening parentheses that wait, the latest last.
pub struct Yard {
    pub output: Seq<Lexeme>,
    pub stack: Seq<Lexeme>,
}

impl Yard {
    /// Nothing emitted, nothing waiting.
    pub open spec fn start() -> Yard {
        Yard { output: Seq::empty(), stack: Seq::empty() }
    }

    /// The top of the stack moved to the end of the output.
    pub open spec fn emit_top(self) -> Yard
        recommends
            self.stack.len() > 0,
    {
        Yard { output: self.output.push(self.stack.last()), stack: self.stack.drop_last() }
    }

    /// The operators on top of the stack that `op` displaces, moved to the
    /// output from the top down.
    pub open spec fn pop_operators(self, op: TokenType) -> Yard
        decreases self.stack.len(),
    {
        if self.stack.len() > 0 && self.stack.last().family() == TokenFamily::Operator
            && displaces(op, self.stack.last().kind) {
            self.emit_top().pop_operators(op)
        } else {
            self
        }
    }

    /// What lies above the last opening parenthesis moved to the output from
    /// the top down, and that parenthesis dropped; `None` where the stack
    /// holds no opening parenthesis.
    pub open spec fn close_parenthesis(self) -> Option<Yard>
        decreases self.stack.len(),
    {
        if self.stack.len() == 0 {
            None
        } else if self.stack.last().kind == TokenType::LeftParenthesis {
            Some(Yard { output: self.output, stack: self.stack.drop_last() })
        } else {
            self.emit_top().close_parenthesis()
        }
    }

    /// The effect of one token. Only a closing parenthesis can fail.
    pub open spec fn shunt(self, token: Lexeme) -> Option<Yard> {
        match token.family() {
            TokenFamily::Literal => Some(Yard { output: self.output.push(token), ..self }),
            TokenFamily::Operator => {
                let popped = self.pop_operators(token.kind);
                Some(Yard { stack: popped.stack.push(token), ..popped })
            },
            TokenFamily::Punctuation => if token.kind == TokenType::LeftParenthesis {
                Some(Yard { stack: self.stack.push(token), ..self })
            } else {
                self.close_parenthesis()
            },
        }
    }

    /// The effect of a run of tokens, taken from left to right; `None` once
    /// one of them fails.
    pub open spec fn shunt_all(self, tokens: Seq<Lexeme>) -> Option<Yard>
        decreases tokens.len(),
    {
        if tokens.len() == 0 {
            Some(self)
        } else {
            match self.shunt_all(tokens.drop_last()) {
                Some(yard) => yard.shunt(tokens.last()),
                None => None,
            }
        }
    }

    /// Whether only operators wait on the stack.
    pub open spec fn only_operators_wait(self) -> bool {
        forall|i: int|
            0 <= i < self.stack.len() ==> (#[trigger] self.stack[i]).family()
                == TokenFamily::Operator
    }

    /// The output followed by the stack from the top down.
    pub open spec fn drained(self) -> Seq<Lexeme> {
        self.output + self.stack.reverse()
    }
}

/// The postfix form of `tokens`. It fails on a closing parenthesis that
/// nothing opened, and on an opening one that is still waiting at the end.
pub open spec fn postfix(tokens: Seq<Lexeme>) -> Result<Seq<Lexeme>, SyntaxError> {
    match Yard::start().shunt_all(tokens) {
        None => Err(SyntaxError::UnmatchedRightParenthesis),
        Some(yard) => if yard.only_operators_wait() {
            Ok(yard.drained())
        } else {
            Err(SyntaxError::UnmatchedLeftParenthesis)
        },
    }
}

/// How the operator `op` groups with operators of its own priority.
pub fn operator_associativity(op: &Token) -> (res: Associativity)
    ensures
        res == associativity_of(op.type_),
{
    match op.type_ {
        TokenType::Plus | TokenType::Multiply | TokenType::Minus | TokenType::Divide =>
            Associativity::Left,
        _ => Associativity::Left,
    }
}

/// How tightly the operator `op` binds.
pub fn operator_priority(op: &Token) -> (res: u8)
    ensures
        res == priority_of(op.type_),
{
    match op.type_ {
        TokenType::Multiply | TokenType::Divide => 10,
        TokenType::Plus | TokenType::Minus => 5,
        _ => 0,
    }
}

/// Once a token has failed, the tokens after it change nothing.
pub proof fn lemma_failure_is_final(yard: Yard, tokens: Seq<Lexeme>, n: int)
    requires
        0 <= n <= tokens.len(),
        yard.shunt_all(tokens.take(n)) is None,
    ensures
        yard.shunt_all(tokens) is None,
    decreases tokens.len() - n,
{
    if n < tokens.len() {
        assert(tokens.take(n + 1).drop_last() =~= tokens.take(n));
        lemma_failure_is_final(yard, tokens, n + 1);
    } else {
        assert(tokens.take(n) =~= tokens);
    }
}

/// The yard that two vectors of tokens stand for.
pub open spec fn yard_of(output: Seq<Token>, stack: Seq<Token>) -> Yard {
    Yard { output: lexemes(output), stack: lexemes(stack) }
}

/// Moving the top of the stack to the output, on the vectors.
fn emit_top(output: &mut Vec<Token>, stack: &mut Vec<Token>)
    requires
        old(stack)@.len() > 0,
    ensures
        yard_of(final(output)@, final(stack)@) == yard_of(old(output)@, old(stack)@).emit_top(),
        final(stack)@.len() == old(stack)@.len() - 1,
{
    let top = stack.pop().unwrap();
    output.push(top);
    assert(lexemes(output@) =~= lexemes(old(output)@).push(lexemes(old(stack)@).last()));
    assert(lexemes(stack@) =~= lexemes(old(stack)@).drop_last());
}

/// Puts infix tokens into postfix order: literals pass through, an operator
/// waits until one that does not bind tighter arrives or its parenthesis
/// closes, and parentheses disappear. The result is `postfix` of the input.
pub fn to_npi(source: Vec<Token>) -> (res: Result<Vec<Token>, SyntaxError>)
    ensures
        match res {
            Ok(output) => postfix(lexemes(source@)) == Ok::<Seq<Lexeme>, SyntaxError>(
                lexemes(output@),
            ),
            Err(e) => postfix(lexemes(source@)) == Err::<Seq<Lexeme>, SyntaxError>(e),
        },
{
    let ghost input = lexemes(source@);
    let mut stack: Vec<Token> = Vec::new();
    let mut output: Vec<Token> = Vec::new();
    let mut i: usize = 0;
    assert(lexemes(output@) =~= Seq::empty() && lexemes(stack@) =~= Seq::empty());
    while i < source.len()
        invariant
            i <= source.len(),
            input == lexemes(source@),
            Yard::start().shunt_all(input.take(i as int)) == Some(yard_of(output@, stack@)),
        decreases source.len() - i,
    {
        let token = source[i].clone();
        let ghost before = yard_of(output@, stack@);
        proof {
            assert(input.take(i + 1).drop_last() =~= input.take(i as int));
            assert(input.take(i + 1).last() == token@);
        }
        match token.family() {
            TokenFamily::Literal => {
                output.push(token);
                assert(lexemes(output@) =~= before.output.push(token@));
            },
            TokenFamily::Operator => {
                let o1assoc = operator_associativity(&token);
                let o1prio = operator_priority(&token);
                while !stack.is_empty() && stack[stack.len() - 1].family() == TokenFamily::Operator
                    invariant
                        o1assoc == associativity_of(token.type_),
                        o1prio == priority_of(token.type_),
                        yard_of(output@, stack@).pop_operators(token.type_) == before.pop_operators(
                            token.type_,
                        ),
                    ensures
                        yard_of(output@, stack@) == before.pop_operators(token.type_),
                    decreases stack.len(),
                {
                    let o2prio = operator_priority(&stack[stack.len() - 1]);
                    if (o1assoc == Associativity::Left && o1prio <= o2prio) || (o1assoc
                        == Associativity::Right && o1prio < o2prio) {
                        emit_top(&mut output, &mut stack);
                    } else {
                        break ;
                    }
                }
                let ghost popped = yard_of(output@, stack@);
                stack.push(token);
                assert(lexemes(stack@) =~= popped.stack.push(token@));
            },
            TokenFamily::Punctuation => {
                match token.type_ {
                    TokenType::LeftParenthesis => {
                        stack.push(token);
                        assert(lexemes(stack@) =~= before.stack.push(token@));
                    },
                    TokenType::RightParenthesis => {
                        loop
                            invariant_except_break
                                yard_of(output@, stack@).close_parenthesis()
                                    == before.close_parenthesis(),
                            invariant
                                i < source.len(),
                                input == lexemes(source@),
                                token.type_ == TokenType::RightParenthesis,
                                input.take(i + 1).drop_last() == input.take(i as int),
                                input.take(i + 1).last() == token@,
                                Yard::start().shunt_all(input.take(i as int)) == Some(before),
                            ensures
                                Some(yard_of(output@, stack@)) == before.close_parenthesis(),
                            decreases stack.len(),
                        {
                            if stack.is_empty() {
                                proof {
                                    lemma_failure_is_final(Yard::start(), input, i + 1);
                                }
                                return Err(SyntaxError::UnmatchedRightParenthesis);
                            }
                            if stack[stack.len() - 1].type_ == TokenType::LeftParenthesis {
                                let ghost closing = yard_of(output@, stack@);
                                stack.pop();
                                assert(lexemes(stack@) =~= closing.stack.drop_last());
                                break ;
                            }
                            emit_top(&mut output, &mut stack);
                        }
                    },
                    _ => {},
                }
            },
        }
        i += 1;
    }
    assert(input.take(source.len() as int) =~= input);
    let ghost end = yard_of(output@, stack@);
    while !stack.is_empty()
        invariant
            input == lexemes(source@),
            Yard::start().shunt_all(input) == Some(end),
            end.only_operators_wait() ==> yard_of(output@, stack@).only_operators_wait(),
            end.only_operators_wait() ==> yard_of(output@, stack@).drained() == end.drained(),
            !end.only_operators_wait() ==> !yard_of(output@, stack@).only_operators_wait(),
        decreases stack.len(),
    {
        let ghost here = yard_of(output@, stack@);
        if stack[stack.len() - 1].family() != TokenFamily::Operator {
            assert(here.stack[stack.len() - 1].family() != TokenFamily::Operator);
            return Err(SyntaxError::UnmatchedLeftParenthesis);
        }
        emit_top(&mut output, &mut stack);
        proof {
            let next = yard_of(output@, stack@);
            assert(next == here.emit_top());
            if here.only_operators_wait() {
                assert forall|k: int| 0 <= k < next.stack.len() implies (
                #[trigger] next.stack[k]).family() == TokenFamily::Operator by {
                    assert(next.stack[k] == here.stack[k]);
                }
                assert(next.drained() =~= here.drained());
            } else {
                let k = choose|k: int|
                    0 <= k < here.stack.len() && (#[trigger] here.stack[k]).family()
                        != TokenFamily::Operator;
                assert(next.stack[k] == here.stack[k]);
            }
        }
    }
    assert(yard_of(output@, stack@).drained() =~= lexemes(output@));
    Ok(output)
}

/// Why a postfix stream denotes no term.
#[derive(Debug, Copy, Clone, PartialEq, Eq, Structural)]
pub enum EvalError {
    /// An operator found fewer than two operands before it.
    MissingOperand,
    /// A parenthesis stood in the stream.
    StrayPunctuation,
    /// The stream left no term at all, or more than one.
    NotOneValue,
}

/// The effect of one postfix token on the operands that wait, the latest
/// last: a literal joins them, an operator replaces the last two by their
/// combination, the last one as its right side.
pub open spec fn reduce(operands: Seq<Term>, token: Lexeme) -> Result<Seq<Term>, EvalError> {
    match token.family() {
        TokenFamily::Literal => Ok(operands.push(Term::Number(token.text))),
        TokenFamily::Operator => if operands.len() < 2 {
            Err(EvalError::MissingOperand)
        } else {
            let right = operands[operands.len() - 1];
            let left = operands[operands.len() - 2];
            Ok(
                operands.take(operands.len() - 2).push(
                    Term::Binary(operation_of(token.kind), Box::new(left), Box::new(right)),
                ),
            )
        },
        TokenFamily::Punctuation => Err(EvalError::StrayPunctuation),
    }
}

/// The effect of a run of postfix tokens, taken from left to right; the
/// first failure ends it.
pub open spec fn reduce_all(operands: Seq<Term>, tokens: Seq<Lexeme>) -> Result<
    Seq<Term>,
    EvalError,
>
    decreases tokens.len(),
{
    if tokens.len() == 0 {
        Ok(operands)
    } else {
        match reduce_all(operands, tokens.drop_last()) {
            Ok(rest) => reduce(rest, tokens.last()),
            Err(e) => Err(e),
        }
    }
}

/// The term that a postfix stream denotes: what is left when the stream has
/// been reduced from no operands, if that is exactly one term.
pub open spec fn evaluation(tokens: Seq<Lexeme>) -> Result<Term, EvalError> {
    match reduce_all(Seq::empty(), tokens) {
        Ok(operands) => if operands.len() == 1 {
            Ok(operands[0])
        } else {
            Err(EvalError::NotOneValue)
        },
        Err(e) => Err(e),
    }
}

/// Once a token has failed, the tokens after it change nothing.
pub proof fn lemma_error_is_final(operands: Seq<Term>, tokens: Seq<Lexeme>, n: int)
    requires
        0 <= n <= tokens.len(),
        reduce_all(operands, tokens.take(n)) is Err,
    ensures
        reduce_all(operands, tokens) == reduce_all(operands, tokens.take(n)),
    decreases tokens.len() - n,
{
    if n < tokens.len() {
        assert(tokens.take(n + 1).drop_last() =~= tokens.take(n));
        lemma_error_is_final(operands, tokens, n + 1);
    } else {
        assert(tokens.take(n) =~= tokens);
    }
}

/// Folds a postfix stream into the term it denotes. The result is
/// `evaluation` of the input: a term where every operator finds its two
/// operands, no parenthesis occurs and one term is left at the end, and
/// otherwise the error of the first token that fails, or `NotOneValue`.
pub fn eval(tokens: Vec<Token>) -> (res: Result<Expr, EvalError>)
    ensures
        match res {
            Ok(expr) => evaluation(lexemes(tokens@)) == Ok::<Term, EvalError>(expr@),
            Err(e) => evaluation(lexemes(tokens@)) == Err::<Term, EvalError>(e),
        },
{
    let ghost input = lexemes(tokens@);
    let mut stack: Vec<Expr> = Vec::new();
    let mut i: usize = 0;
    assert(terms(stack@) =~= Seq::empty());
    while i < tokens.len()
        invariant
            i <= tokens.len(),
            input == lexemes(tokens@),
            reduce_all(Seq::empty(), input.take(i as int)) == Ok::<Seq<Term>, EvalError>(
                terms(stack@),
            ),
        decreases tokens.len() - i,
    {
        let token = &tokens[i];
        let ghost before = terms(stack@);
        proof {
            assert(input.take(i + 1).drop_last() =~= input.take(i as int));
            assert(input.take(i + 1).last() == token@);
        }
        match token.family() {
            TokenFamily::Literal => {
                stack.push(Expr::Number(token.value.clone()));
                assert(terms(stack@) =~= before.push(Term::Number(token@.text)));
            },
            TokenFamily::Operator => {
                let b = stack.pop();
                let a = stack.pop();
                if a.is_none() || b.is_none() {
                    proof {
                        lemma_error_is_final(Seq::empty(), input, i + 1);
                    }
                    return Err(EvalError::MissingOperand);
                }
                let a = a.unwrap();
                let b = b.unwrap();
                let operation = match token.type_ {
                    TokenType::Plus => Operation::Add,
                    TokenType::Minus => Operation::Subtract,
                    TokenType::Multiply => Operation::Multiply,
                    _ => Operation::Divide,
                };
                let ghost rest = terms(stack@);
                stack.push(Expr::Binary(operation, Box::new(a), Box::new(b)));
                assert(rest =~= before.take(before.len() - 2));
                assert(terms(stack@) =~= rest.push(
                    Term::Binary(operation, Box::new(a@), Box::new(b@)),
                ));
            },
            TokenFamily::Punctuation => {
                proof {
                    lemma_error_is_final(Seq::empty(), input, i + 1);
                }
                return Err(EvalError::StrayPunctuation);
            },
        }
        i += 1;
    }
    assert(input.take(tokens.len() as int) =~= input);
    if stack.len() != 1 {
        return Err(EvalError::NotOneValue);
    }
    Ok(stack.pop().unwrap())
}

/// Why a run of tokens has no value.
#[derive(Debug, Copy, Clone, PartialEq, Eq, Structural)]
pub enum ParseError {
    Syntax(SyntaxError),
    Evaluation(EvalError),
}

/// What a line of tokens comes to: nothing where the line, or its postfix
/// form, is empty; else the term it denotes, or the error of the stage that
/// failed.
pub open spec fn outcome(tokens: Seq<Lexeme>) -> Option<Result<Term, ParseError>> {
    if tokens.len() == 0 {
        None
    } else {
        match postfix(tokens) {
            Err(e) => Some(Err(ParseError::Syntax(e))),
            Ok(stream) => if stream.len() == 0 {
                None
            } else {
                match evaluation(stream) {
                    Ok(term) => Some(Ok(term)),
                    Err(e) => Some(Err(ParseError::Evaluation(e))),
                }
            },
        }
    }
}

/// Converts a line of tokens and folds it. The result is `outcome` of the
/// input.
pub fn parse(tokens: Vec<Token>) -> (res: Option<Result<Expr, ParseError>>)
    ensures
        match res {
            None => outcome(lexemes(tokens@)) is None,
            Some(Ok(expr)) => outcome(lexemes(tokens@)) == Some(Ok::<Term, ParseError>(expr@)),
            Some(Err(e)) => outcome(lexemes(tokens@)) == Some(Err::<Term, ParseError>(e)),
        },
{
    if tokens.is_empty() {
        return None;
    }
    match to_npi(tokens) {
        Ok(output) => {
            if output.is_empty() {
                return None;
            }
            match eval(output) {
                Ok(result) => Some(Ok(result)),
                Err(err) => Some(Err(ParseError::Evaluation(err))),
            }
        },
        Err(err) => Some(Err(ParseError::Syntax(err))),
    }
}

impl SyntaxError {
    /// The text of `message`.
    pub open spec fn message_text(self) -> Seq<char> {
        "L'expression est mal parenthésée"@
    }

    /// The sentence that tells a reader of this error.
    pub fn message(&self) -> (res: String)
        ensures
            res@ == self.message_text(),
    {
        String::from_str("L'expression est mal parenthésée")
    }
}

impl EvalError {
    /// The text of `message`.
    pub open spec fn message_text(self) -> Seq<char> {
        match self {
            EvalError::MissingOperand => "L'expression est mal formée"@,
            EvalError::StrayPunctuation =>
                "De la poncutation a été détectée là où elle ne devrait pas être, uh oh !"@,
            EvalError::NotOneValue => "Il ne doit rester qu'un nombre dans la stack, eh"@,
        }
    }

    /// The sentence that tells a reader of this error.
    pub fn message(&self) -> (res: String)
        ensures
            res@ == self.message_text(),
    {
        match self {
            EvalError::MissingOperand => String::from_str("L'expression est mal formée"),
            EvalError::StrayPunctuation => String::from_str(
                "De la poncutation a été détectée là où elle ne devrait pas être, uh oh !",
            ),
            EvalError::NotOneValue => String::from_str(
                "Il ne doit rester qu'un nombre dans la stack, eh",
            ),
        }
    }
}

/// Whether `property` holds of every token of `tokens`.
pub open spec fn each(tokens: Seq<Lexeme>, property: spec_fn(Lexeme) -> bool) -> bool {
    forall|i: int| 0 <= i < tokens.len() ==> #[trigger] property(tokens[i])
}

/// Whether a token may be read while `emitted` is to hold of the output
/// and `waiting` of the stack: a literal goes to the output, an operator
/// and an opening parenthesis to the stack.
pub open spec fn admits(
    token: Lexeme,
    emitted: spec_fn(Lexeme) -> bool,
    waiting: spec_fn(Lexeme) -> bool,
) -> bool {
    match token.family() {
        TokenFamily::Literal => emitted(token),
        TokenFamily::Operator => waiting(token),
        TokenFamily::Punctuation => token.kind == TokenType::LeftParenthesis ==> waiting(token),
    }
}

/// Whether what may wait, an opening parenthesis aside, may also be
/// emitted.
pub open spec fn passes_on(
    emitted: spec_fn(Lexeme) -> bool,
    waiting: spec_fn(Lexeme) -> bool,
) -> bool {
    forall|token: Lexeme|
        #[trigger] waiting(token) && token.kind != TokenType::LeftParenthesis ==> emitted(token)
}

impl Yard {
    /// Whether `emitted` holds of the whole output and `waiting` of the
    /// whole stack.
    pub open spec fn keeps(
        self,
        emitted: spec_fn(Lexeme) -> bool,
        waiting: spec_fn(Lexeme) -> bool,
    ) -> bool {
        each(self.output, emitted) && each(self.stack, waiting)
    }
}

/// Moving the top of the stack to the output keeps what holds of both,
/// where the top is no opening parenthesis.
pub proof fn lemma_emit_top_keeps(
    yard: Yard,
    emitted: spec_fn(Lexeme) -> bool,
    waiting: spec_fn(Lexeme) -> bool,
)
    requires
        yard.keeps(emitted, waiting),
        passes_on(emitted, waiting),
        yard.stack.len() > 0,
        yard.stack.last().kind != TokenType::LeftParenthesis,
    ensures
        yard.emit_top().keeps(emitted, waiting),
{
    let next = yard.emit_top();
    assert(waiting(yard.stack[yard.stack.len() - 1]));
    assert forall|i: int| 0 <= i < next.output.len() implies #[trigger] emitted(
        next.output[i],
    ) by {
        if i < yard.output.len() {
            assert(next.output[i] == yard.output[i]);
        }
    }
    assert forall|i: int| 0 <= i < next.stack.len() implies #[trigger] waiting(next.stack[i]) by {
        assert(next.stack[i] == yard.stack[i]);
    }
}

/// Popping the operators that `op` displaces keeps what holds of the output
/// and of the stack.
pub proof fn lemma_pop_operators_keeps(
    yard: Yard,
    op: TokenType,
    emitted: spec_fn(Lexeme) -> bool,
    waiting: spec_fn(Lexeme) -> bool,
)
    requires
        yard.keeps(emitted, waiting),
        passes_on(emitted, waiting),
    ensures
        yard.pop_operators(op).keeps(emitted, waiting),
    decreases yard.stack.len(),
{
    if yard.stack.len() > 0 && yard.stack.last().family() == TokenFamily::Operator && displaces(
        op,
        yard.stack.last().kind,
    ) {
        lemma_emit_top_keeps(yard, emitted, waiting);
        lemma_pop_operators_keeps(yard.emit_top(), op, emitted, waiting);
    }
}

/// Closing a parenthesis keeps what holds of the output and of the stack.
pub proof fn lemma_close_parenthesis_keeps(
    yard: Yard,
    emitted: spec_fn(Lexeme) -> bool,
    waiting: spec_fn(Lexeme) -> bool,
)
    requires
        yard.keeps(emitted, waiting),
        passes_on(emitted, waiting),
    ensures
        yard.close_parenthesis() matches Some(closed) ==> closed.keeps(emitted, waiting),
    decreases yard.stack.len(),
{
    if yard.stack.len() > 0 {
        if yard.stack.last().kind == TokenType::LeftParenthesis {
            let closed = Yard { output: yard.output, stack: yard.stack.drop_last() };
            assert forall|i: int| 0 <= i < closed.stack.len() implies #[trigger] waiting(
                closed.stack[i],
            ) by {
                assert(closed.stack[i] == yard.stack[i]);
            }
        } else {
            lemma_emit_top_keeps(yard, emitted, waiting);
            lemma_close_parenthesis_keeps(yard.emit_top(), emitted, waiting);
        }
    }
}

/// Reading a token that may be read keeps what holds of the output and of
/// the stack.
pub proof fn lemma_shunt_keeps(
    yard: Yard,
    token: Lexeme,
    emitted: spec_fn(Lexeme) -> bool,
    waiting: spec_fn(Lexeme) -> bool,
)
    requires
        yard.keeps(emitted, waiting),
        passes_on(emitted, waiting),
        admits(token, emitted, waiting),
    ensures
        yard.shunt(token) matches Some(next) ==> next.keeps(emitted, waiting),
{
    match token.family() {
        TokenFamily::Literal => {
            let next = Yard { output: yard.output.push(token), ..yard };
            assert forall|i: int| 0 <= i < next.output.len() implies #[trigger] emitted(
                next.output[i],
            ) by {
                if i < yard.output.len() {
                    assert(next.output[i] == yard.output[i]);
                }
            }
        },
        TokenFamily::Operator => {
            lemma_pop_operators_keeps(yard, token.kind, emitted, waiting);
            let popped = yard.pop_operators(token.kind);
            let next = Yard { stack: popped.stack.push(token), ..popped };
            assert forall|i: int| 0 <= i < next.stack.len() implies #[trigger] waiting(
                next.stack[i],
            ) by {
                if i < popped.stack.len() {
                    assert(next.stack[i] == popped.stack[i]);
                }
            }
        },
        TokenFamily::Punctuation => {
            if token.kind == TokenType::LeftParenthesis {
                let next = Yard { stack: yard.stack.push(token), ..yard };
                assert forall|i: int| 0 <= i < next.stack.len() implies #[trigger] waiting(
                    next.stack[i],
                ) by {
                    if i < yard.stack.len() {
                        assert(next.stack[i] == yard.stack[i]);
                    }
                }
            } else {
                lemma_close_parenthesis_keeps(yard, emitted, waiting);
            }
        },
    }
}

/// What holds of the output and of the stack before a run of tokens still
/// holds after it, where each token may be read and what waits may be
/// emitted.
pub proof fn lemma_shunt_all_keeps(
    yard: Yard,
    tokens: Seq<Lexeme>,
    emitted: spec_fn(Lexeme) -> bool,
    waiting: spec_fn(Lexeme) -> bool,
)
    requires
        yard.keeps(emitted, waiting),
        passes_on(emitted, waiting),
        forall|i: int| 0 <= i < tokens.len() ==> admits(#[trigger] tokens[i], emitted, waiting),
    ensures
        yard.shunt_all(tokens) matches Some(next) ==> next.keeps(emitted, waiting),
    decreases tokens.len(),
{
    if tokens.len() > 0 {
        let before = tokens.drop_last();
        assert forall|i: int| 0 <= i < before.len() implies admits(
            #[trigger] before[i],
            emitted,
            waiting,
        ) by {
            assert(before[i] == tokens[i]);
        }
        lemma_shunt_all_keeps(yard, before, emitted, waiting);
        if let Some(middle) = yard.shunt_all(before) {
            assert(tokens.last() == tokens[tokens.len() - 1]);
            lemma_shunt_keeps(middle, tokens.last(), emitted, waiting);
        }
    }
}

/// What holds of every token that may reach the output holds of the whole
/// postfix form.
pub proof fn lemma_postfix_keeps(
    tokens: Seq<Lexeme>,
    emitted: spec_fn(Lexeme) -> bool,
    waiting: spec_fn(Lexeme) -> bool,
)
    requires
        passes_on(emitted, waiting),
        forall|i: int| 0 <= i < tokens.len() ==> admits(#[trigger] tokens[i], emitted, waiting),
    ensures
        postfix(tokens) matches Ok(stream) ==> each(stream, emitted),
{
    lemma_shunt_all_keeps(Yard::start(), tokens, emitted, waiting);
    if let Some(yard) = Yard::start().shunt_all(tokens) {
        if yard.only_operators_wait() {
            let stream = yard.drained();
            assert forall|i: int| 0 <= i < stream.len() implies #[trigger] emitted(stream[i]) by {
                if i < yard.output.len() {
                    assert(stream[i] == yard.output[i]);
                } else {
                    let k = yard.stack.len() - 1 - (i - yard.output.len());
                    assert(stream[i] == yard.stack[k]);
                    assert(waiting(yard.stack[k]));
                    assert(yard.stack[k].family() == TokenFamily::Operator);
                }
            }
        }
    }
}

/// Whether no parenthesis occurs among `tokens`.
pub open spec fn free_of_punctuation(tokens: Seq<Lexeme>) -> bool {
    forall|i: int|
        0 <= i < tokens.len() ==> (#[trigger] tokens[i]).family() != TokenFamily::Punctuation
}

/// A postfix form holds no parenthesis.
pub proof fn lemma_postfix_is_free_of_punctuation(tokens: Seq<Lexeme>)
    ensures
        postfix(tokens) matches Ok(stream) ==> free_of_punctuation(stream),
{
    let emitted = |token: Lexeme| token.family() != TokenFamily::Punctuation;
    let waiting = |token: Lexeme|
        token.family() == TokenFamily::Operator || token.kind == TokenType::LeftParenthesis;
    lemma_postfix_keeps(tokens, emitted, waiting);
    if let Ok(stream) = postfix(tokens) {
        assert forall|i: int| 0 <= i < stream.len() implies (#[trigger] stream[i]).family()
            != TokenFamily::Punctuation by {
            assert(emitted(stream[i]));
        }
    }
}

/// The postfix form of well-formed tokens holds well-formed tokens.
pub proof fn lemma_postfix_is_well_formed(tokens: Seq<Lexeme>)
    requires
        well_formed_tokens(tokens),
    ensures
        postfix(tokens) matches Ok(stream) ==> well_formed_tokens(stream),
{
    let sound = |token: Lexeme| token.well_formed();
    assert forall|i: int| 0 <= i < tokens.len() implies admits(
        #[trigger] tokens[i],
        sound,
        sound,
    ) by {
        assert(tokens[i].well_formed());
    }
    lemma_postfix_keeps(tokens, sound, sound);
    if let Ok(stream) = postfix(tokens) {
        assert forall|i: int| 0 <= i < stream.len() implies (
        #[trigger] stream[i]).well_formed() by {
            assert(sound(stream[i]));
        }
    }
}

/// Every token of a postfix form is a token of the input.
pub proof fn lemma_postfix_draws_from_its_input(tokens: Seq<Lexeme>)
    ensures
        postfix(tokens) matches Ok(stream) ==> forall|i: int|
            0 <= i < stream.len() ==> tokens.contains(#[trigger] stream[i]),
{
    let given = |token: Lexeme| tokens.contains(token);
    lemma_postfix_keeps(tokens, given, given);
    if let Ok(stream) = postfix(tokens) {
        assert forall|i: int| 0 <= i < stream.len() implies tokens.contains(
            #[trigger] stream[i],
        ) by {
            assert(given(stream[i]));
        }
    }
}

/// A stream without parentheses is never refused for one.
pub proof fn lemma_no_punctuation_no_stray(operands: Seq<Term>, tokens: Seq<Lexeme>)
    requires
        free_of_punctuation(tokens),
    ensures
        reduce_all(operands, tokens) != Err::<Seq<Term>, EvalError>(EvalError::StrayPunctuation),
    decreases tokens.len(),
{
    if tokens.len() > 0 {
        let before = tokens.drop_last();
        assert forall|i: int| 0 <= i < before.len() implies (#[trigger] before[i]).family()
            != TokenFamily::Punctuation by {
            assert(before[i] == tokens[i]);
        }
        lemma_no_punctuation_no_stray(operands, before);
        assert(tokens.last() == tokens[tokens.len() - 1]);
    }
}

/// What the conversion gives, the evaluation never refuses for a
/// parenthesis.
pub proof fn lemma_converted_stream_has_no_stray_punctuation(tokens: Seq<Lexeme>)
    ensures
        postfix(tokens) matches Ok(stream) ==> evaluation(stream) != Err::<Term, EvalError>(
            EvalError::StrayPunctuation,
        ),
{
    lemma_postfix_is_free_of_punctuation(tokens);
    if let Ok(stream) = postfix(tokens) {
        lemma_no_punctuation_no_stray(Seq::empty(), stream);
    }
}

/// Whether every term of `operands` is well formed.
pub open spec fn well_formed_terms(operands: Seq<Term>) -> bool {
    forall|i: int| 0 <= i < operands.len() ==> (#[trigger] operands[i]).well_formed()
}

/// Reducing well-formed tokens over well-formed terms leaves well-formed
/// terms.
pub proof fn lemma_reduce_all_keeps_well_formed(operands: Seq<Term>, tokens: Seq<Lexeme>)
    requires
        well_formed_terms(operands),
        well_formed_tokens(tokens),
    ensures
        reduce_all(operands, tokens) matches Ok(rest) ==> well_formed_terms(rest),
    decreases tokens.len(),
{
    if tokens.len() > 0 {
        let before = tokens.drop_last();
        assert forall|i: int| 0 <= i < before.len() implies (
        #[trigger] before[i]).well_formed() by {
            assert(before[i] == tokens[i]);
        }
        lemma_reduce_all_keeps_well_formed(operands, before);
        if let Ok(middle) = reduce_all(operands, before) {
            let token = tokens.last();
            assert(token == tokens[tokens.len() - 1]);
            if let Ok(rest) = reduce(middle, token) {
                assert forall|i: int| 0 <= i < rest.len() implies (
                #[trigger] rest[i]).well_formed() by {
                    if i < rest.len() - 1 {
                        assert(rest[i] == middle[i]);
                    } else if token.family() == TokenFamily::Operator {
                        assert(middle[middle.len() - 1].well_formed());
                        assert(middle[middle.len() - 2].well_formed());
                    }
                }
            }
        }
    }
}

/// The term of a stream of well-formed tokens is well formed: each of its
/// literals is a non-empty run of digits.
pub proof fn lemma_evaluation_is_well_formed(tokens: Seq<Lexeme>)
    requires
        well_formed_tokens(tokens),
    ensures
        evaluation(tokens) matches Ok(term) ==> term.well_formed(),
{
    lemma_reduce_all_keeps_well_formed(Seq::empty(), tokens);
}

/// Converting two runs of tokens one after the other is converting the
/// first and going on with the second.
pub proof fn lemma_shunt_all_concat(yard: Yard, first: Seq<Lexeme>, second: Seq<Lexeme>)
    ensures
        yard.shunt_all(first + second) == match yard.shunt_all(first) {
            Some(middle) => middle.shunt_all(second),
            None => None,
        },
    decreases second.len(),
{
    if second.len() == 0 {
        assert(first + second =~= first);
    } else {
        assert((first + second).drop_last() =~= first + second.drop_last());
        lemma_shunt_all_concat(yard, first, second.drop_last());
    }
}

/// Reducing two runs of tokens one after the other is reducing the first
/// and going on with the second.
pub proof fn lemma_reduce_all_concat(
    operands: Seq<Term>,
    first: Seq<Lexeme>,
    second: Seq<Lexeme>,
)
    ensures
        reduce_all(operands, first + second) == match reduce_all(operands, first) {
            Ok(middle) => reduce_all(middle, second),
            Err(e) => Err(e),
        },
    decreases second.len(),
{
    if second.len() == 0 {
        assert(first + second =~= first);
    } else {
        assert((first + second).drop_last() =~= first + second.drop_last());
        lemma_reduce_all_concat(operands, first, second.drop_last());
    }
}

/// A term written in postfix order reduces to itself, on top of whatever
/// waits.
pub proof fn lemma_postfix_of_a_term_reduces_to_it(operands: Seq<Term>, term: Term)
    ensures
        reduce_all(operands, term.postfix()) == Ok::<Seq<Term>, EvalError>(operands.push(term)),
    decreases term,
{
    match term {
        Term::Number(digits) => {
            let token = Lexeme { kind: TokenType::Int, text: digits };
            assert(seq![token].drop_last() =~= Seq::empty());
            assert(reduce_all(operands, Seq::empty()) == Ok::<Seq<Term>, EvalError>(operands));
            assert(seq![token].last() == token);
        },
        Term::Binary(operation, left, right) => {
            let sides = left.postfix() + right.postfix();
            lemma_postfix_of_a_term_reduces_to_it(operands, *left);
            lemma_postfix_of_a_term_reduces_to_it(operands.push(*left), *right);
            lemma_reduce_all_concat(operands, left.postfix(), right.postfix());
            let both = operands.push(*left).push(*right);
            assert(reduce_all(operands, sides) == Ok::<Seq<Term>, EvalError>(both));
            assert(term.postfix().drop_last() =~= sides);
            assert(both.take(both.len() - 2) =~= operands);
        },
    }
}

/// Evaluating a term's postfix order gives the term back.
pub proof fn lemma_evaluation_inverts_postfix(term: Term)
    ensures
        evaluation(term.postfix()) == Ok::<Term, EvalError>(term),
{
    lemma_postfix_of_a_term_reduces_to_it(Seq::empty(), term);
}

/// A line of well-formed tokens never fails for a parenthesis in its
/// postfix form, and the term it comes to is well formed.
pub proof fn lemma_outcome_of_well_formed_tokens(tokens: Seq<Lexeme>)
    requires
        well_formed_tokens(tokens),
    ensures
        outcome(tokens) != Some(
            Err::<Term, ParseError>(ParseError::Evaluation(EvalError::StrayPunctuation)),
        ),
        outcome(tokens) matches Some(Ok(term)) ==> term.well_formed(),
{
    lemma_converted_stream_has_no_stray_punctuation(tokens);
    lemma_postfix_is_well_formed(tokens);
    if let Ok(stream) = postfix(tokens) {
        lemma_evaluation_is_well_formed(stream);
    }
}

} // verus!
