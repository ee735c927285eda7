//! Tokens and the scanner that produces them from text.

use vstd::prelude::*;
use vstd::string::group_string_axioms;

verus! {

/// The kind of a token.
#[derive(Debug, Copy, Clone, PartialEq, Eq, Structural)]
pub enum TokenType {
    Int,
    Plus,
    Minus,
    Multiply,
    Divide,
    LeftParenthesis,
    RightParenthesis,
}

/// The coarse class of a token kind.
#[derive(Debug, Copy, Clone, PartialEq, Eq, Structural)]
pub enum TokenFamily {
    Literal,
    Operator,
    Punctuation,
}

/// A token: its kind and the piece of source text it stands for.
#[derive(Debug, PartialEq)]
pub struct Token {
    pub type_: TokenType,
    pub value: String,
}

/// The mathematical content of a token.
pub struct Lexeme {
    pub kind: TokenType,
    pub text: Seq<char>,
}

/// The family of a kind.
pub open spec fn family_of(kind: TokenType) -> TokenFamily {
    match kind {
        TokenType::Int => TokenFamily::Literal,
        TokenType::Plus | TokenType::Minus | TokenType::Multiply | TokenType::Divide =>
            TokenFamily::Operator,
        TokenType::LeftParenthesis | TokenType::RightParenthesis => TokenFamily::Punctuation,
    }
}

/// Whether `ch` is one of the ten decimal digits.
pub open spec fn is_digit(ch: char) -> bool {
    '0' <= ch && ch <= '9'
}

/// The kind that a symbol character stands for, if it is one of the six.
pub open spec fn symbol_kind(ch: char) -> Option<TokenType> {
    if ch == '+' {
        Some(TokenType::Plus)
    } else if ch == '-' {
        Some(TokenType::Minus)
    } else if ch == '*' {
        Some(TokenType::Multiply)
    } else if ch == '/' {
        Some(TokenType::Divide)
    } else if ch == '(' {
        Some(TokenType::LeftParenthesis)
    } else if ch == ')' {
        Some(TokenType::RightParenthesis)
    } else {
        None
    }
}

/// The character that a kind other than `Int` is written with.
pub open spec fn symbol_of(kind: TokenType) -> char {
    match kind {
        TokenType::Plus => '+',
        TokenType::Minus => '-',
        TokenType::Multiply => '*',
        TokenType::Divide => '/',
        TokenType::LeftParenthesis => '(',
        _ => ')',
    }
}

impl Lexeme {
    /// A literal's text is a non-empty run of digits; any other token's text
    /// is the one character of its kind.
    pub open spec fn well_formed(self) -> bool {
        if self.kind == TokenType::Int {
            self.text.len() > 0 && forall|i: int|
                0 <= i < self.text.len() ==> is_digit(#[trigger] self.text[i])
        } else {
            self.text == seq![symbol_of(self.kind)]
        }
    }

    /// The family of the token's kind.
    pub open spec fn family(self) -> TokenFamily {
        family_of(self.kind)
    }
}

impl View for Token {
    type V = Lexeme;

    open spec fn view(&self) -> Lexeme {
        Lexeme { kind: self.type_, text: self.value@ }
    }
}

impl Clone for Token {
    fn clone(&self) -> (res: Self)
        ensures
            res == *self,
    {
        Token { type_: self.type_, value: self.value.clone() }
    }
}

impl Token {
    /// The family of this token, which depends on its kind alone.
    pub fn family(&self) -> (res: TokenFamily)
        ensures
            res == family_of(self.type_),
            res == self@.family(),
    {
        match self.type_ {
            TokenType::Plus => TokenFamily::Operator,
            TokenType::Minus => TokenFamily::Operator,
            TokenType::Multiply => TokenFamily::Operator,
            TokenType::Divide => TokenFamily::Operator,
            TokenType::LeftParenthesis => TokenFamily::Punctuation,
            TokenType::RightParenthesis => TokenFamily::Punctuation,
            TokenType::Int => TokenFamily::Literal,
        }
    }
}

/// `String::push` of std: the string afterwards is the string before with
/// `ch` appended as its last character.
pub assume_specification[ String::push ](s: &mut String, ch: char)
    ensures
        final(s)@ == old(s)@.push(ch),
;

/// The token of a symbol character, or `None` where `ch` is not one of the
/// six symbols.
pub fn sym_to_token(ch: char) -> (res: Option<Token>)
    ensures
        match symbol_kind(ch) {
            Some(kind) => res is Some && res->0@ == (Lexeme { kind, text: seq![ch] }),
            None => res is None,
        },
{
    let type_: TokenType;
    match ch {
        '+' => type_ = TokenType::Plus,
        '-' => type_ = TokenType::Minus,
        '*' => type_ = TokenType::Multiply,
        '/' => type_ = TokenType::Divide,
        '(' => type_ = TokenType::LeftParenthesis,
        ')' => type_ = TokenType::RightParenthesis,
        _ => return None,
    }
    let mut value = String::new();
    value.push(ch);
    Some(Token { type_, value })
}

/// The contents of a run of tokens.
pub open spec fn lexemes(tokens: Seq<Token>) -> Seq<Lexeme> {
    tokens.map_values(|t: Token| t@)
}

/// A character that the scanner refuses: it carries the character.
#[derive(Debug, Copy, Clone, PartialEq, Eq, Structural)]
pub struct LexError {
    pub symbol: char,
}

impl LexError {
    /// The text of `message`.
    pub open spec fn message_text(self) -> Seq<char> {
        "Utilisation d'un symbole interdit: "@.push(self.symbol)
    }

    /// The sentence that tells a reader of this error: it ends with the
    /// character that was refused.
    pub fn message(&self) -> (res: String)
        ensures
            res@ == self.message_text(),
    {
        let mut err = String::from_str("Utilisation d'un symbole interdit: ");
        err.push(self.symbol);
        err
    }
}

/// Characters that separate tokens and leave no trace.
pub open spec fn is_blank(ch: char) -> bool {
    ch == ' ' || ch == '\n'
}

/// Characters that may occur in an expression.
pub open spec fn is_accepted(ch: char) -> bool {
    is_digit(ch) || symbol_kind(ch) is Some || is_blank(ch)
}

/// The literal that is put in front of a sign without a left operand.
pub open spec fn zero() -> Lexeme {
    Lexeme { kind: TokenType::Int, text: seq!['0'] }
}

/// Whether a sign written after `tokens` would have nothing to its left to
/// apply to: at the start, after an opening parenthesis, after an operator.
pub open spec fn lacks_left_operand(tokens: Seq<Lexeme>) -> bool {
    tokens.len() == 0 || tokens.last().kind == TokenType::LeftParenthesis
        || tokens.last().family() == TokenFamily::Operator
}

/// The tokens of `text`, read from left to right. A digit that follows a
/// digit extends the literal before it; any other digit opens a literal. A
/// symbol gives its token, and a sign without a left operand is preceded by
/// a literal zero. Any other character adds nothing.
pub open spec fn scan(text: Seq<char>) -> Seq<Lexeme>
    decreases text.len(),
{
    if text.len() == 0 {
        Seq::empty()
    } else {
        let before = text.drop_last();
        let tokens = scan(before);
        let ch = text.last();
        if is_digit(ch) {
            if before.len() > 0 && is_digit(before.last()) {
                tokens.drop_last().push(
                    Lexeme { kind: TokenType::Int, text: tokens.last().text.push(ch) },
                )
            } else {
                tokens.push(Lexeme { kind: TokenType::Int, text: seq![ch] })
            }
        } else {
            match symbol_kind(ch) {
                Some(kind) => {
                    let symbol = Lexeme { kind, text: seq![ch] };
                    if (kind == TokenType::Plus || kind == TokenType::Minus) && lacks_left_operand(
                        tokens,
                    ) {
                        tokens.push(zero()).push(symbol)
                    } else {
                        tokens.push(symbol)
                    }
                },
                None => tokens,
            }
        }
    }
}

/// Whether `at` is the place of the first character of `text` that is not
/// accepted.
pub open spec fn first_rejected(text: Seq<char>, at: int) -> bool {
    &&& 0 <= at < text.len()
    &&& !is_accepted(text[at])
    &&& forall|j: int| 0 <= j < at ==> is_accepted(#[trigger] text[j])
}

/// Whether every character of `text` is accepted.
pub open spec fn all_accepted(text: Seq<char>) -> bool {
    forall|j: int| 0 <= j < text.len() ==> is_accepted(#[trigger] text[j])
}

/// What the scanner is in the middle of.
#[derive(Debug, Copy, Clone, PartialEq, Eq, Structural)]
enum TokenizationState {
    ReadingInt,
    Idle,
}

/// Whether `ch` is a decimal digit.
fn is_decimal_digit(ch: char) -> (res: bool)
    ensures
        res == is_digit(ch),
{
    '0' <= ch && ch <= '9'
}

/// A literal token that holds the one digit `ch`.
fn literal_of(ch: char) -> (res: Token)
    ensures
        res@ == (Lexeme { kind: TokenType::Int, text: seq![ch] }),
{
    let mut value = String::new();
    value.push(ch);
    Token { type_: TokenType::Int, value }
}

/// Splits `code` into tokens. Succeeds exactly when every character is a
/// digit, one of the six symbols, a space or a newline, and then returns
/// `scan` of the text; otherwise fails with the first character that is
/// none of these.
pub fn tokenize(code: &str) -> (res: Result<Vec<Token>, LexError>)
    ensures
        match res {
            Ok(tokens) => all_accepted(code@) && lexemes(tokens@) == scan(code@),
            Err(e) => exists|at: int| first_rejected(code@, at) && e.symbol == code@[at],
        },
        res matches Ok(tokens) ==> forall|i: int|
            0 <= i < tokens@.len() ==> (#[trigger] tokens@[i])@.well_formed(),
{
    broadcast use group_string_axioms;

    let mut state = TokenizationState::Idle;
    let mut tokens: Vec<Token> = Vec::new();
    assert(lexemes(tokens@) =~= scan(code@.take(0)));
    for ch in it: code.chars()
        invariant
            it.seq() == code@,
            all_accepted(code@.take(it.index())),
            lexemes(tokens@) == scan(code@.take(it.index())),
            state == TokenizationState::ReadingInt <==> it.index() > 0 && is_digit(
                code@[it.index() - 1],
            ),
            state == TokenizationState::ReadingInt ==> tokens@.len() > 0,
    {
        let ghost at = it.index();
        let ghost before = code@.take(at);
        let ghost text = code@.take(at + 1);
        assert(text.drop_last() =~= before);
        assert(text.last() == ch);
        if is_decimal_digit(ch) {
            if state == TokenizationState::ReadingInt {
                let mut last = tokens.pop().unwrap();
                last.value.push(ch);
                tokens.push(last);
            } else {
                state = TokenizationState::ReadingInt;
                tokens.push(literal_of(ch));
            }
            assert(lexemes(tokens@) =~= scan(text));
        } else {
            if state == TokenizationState::ReadingInt {
                state = TokenizationState::Idle;
            }
            match sym_to_token(ch) {
                Some(token) => {
                    if token.type_ == TokenType::Plus || token.type_ == TokenType::Minus {
                        if tokens.is_empty() {
                            tokens.push(literal_of('0'));
                        } else {
                            let last_token = &tokens[tokens.len() - 1];
                            if last_token.type_ == TokenType::LeftParenthesis
                                || last_token.family() == TokenFamily::Operator {
                                tokens.push(literal_of('0'));
                            }
                        }
                    }
                    tokens.push(token);
                    assert(lexemes(tokens@) =~= scan(text));
                },
                None => {
                    if ch != ' ' && ch != '\n' {
                        assert(first_rejected(code@, at)) by {
                            assert forall|j: int| 0 <= j < at implies is_accepted(
                                #[trigger] code@[j],
                            ) by {
                                assert(before[j] == code@[j]);
                            }
                        }
                        return Err(LexError { symbol: ch });
                    }
                    assert(lexemes(tokens@) =~= scan(text));
                },
            }
        }
        assert(all_accepted(text)) by {
            assert forall|j: int| 0 <= j < text.len() implies is_accepted(#[trigger] text[j]) by {
                if j < at {
                    assert(before[j] == text[j]);
                }
            }
        }
    }
    proof {
        assert(code@.take(code@.len() as int) =~= code@);
        lemma_scan_is_well_formed(code@);
        assert forall|i: int| 0 <= i < tokens@.len() implies (
        #[trigger] tokens@[i])@.well_formed() by {
            assert(lexemes(tokens@)[i] == tokens@[i]@);
        }
    }
    Ok(tokens)
}

/// The family of a token is decided by its kind: two tokens of one kind
/// have one family, whatever their texts.
pub proof fn lemma_family_depends_on_kind_alone(a: Lexeme, b: Lexeme)
    requires
        a.kind == b.kind,
    ensures
        a.family() == b.family(),
{
}

/// Every token that `scan` gives is well formed; and after a digit the last
/// token is a literal.
pub proof fn lemma_scan_is_well_formed(text: Seq<char>)
    ensures
        forall|i: int| 0 <= i < scan(text).len() ==> (#[trigger] scan(text)[i]).well_formed(),
        text.len() > 0 && is_digit(text.last()) ==> scan(text).len() > 0 && scan(
            text,
        ).last().kind == TokenType::Int,
    decreases text.len(),
{
    if text.len() > 0 {
        let before = text.drop_last();
        lemma_scan_is_well_formed(before);
        let tokens = scan(before);
        let ch = text.last();
        if is_digit(ch) {
            if before.len() > 0 && is_digit(before.last()) {
                let grown = Lexeme { kind: TokenType::Int, text: tokens.last().text.push(ch) };
                assert(tokens.last().well_formed());
                assert(grown.well_formed());
            } else {
                assert((Lexeme { kind: TokenType::Int, text: seq![ch] }).well_formed());
            }
        } else if let Some(kind) = symbol_kind(ch) {
            assert(zero().well_formed());
            assert((Lexeme { kind, text: seq![ch] }).well_formed());
        }
    }
}

/// Whether the token at `i` has an operand before it: a literal or a closing
/// parenthesis.
pub open spec fn has_left_operand(tokens: Seq<Lexeme>, i: int) -> bool {
    i > 0 && (tokens[i - 1].kind == TokenType::Int || tokens[i - 1].kind
        == TokenType::RightParenthesis)
}

/// In what `scan` gives, every plus and minus has an operand before it: a
/// sign never stands first, after an opening parenthesis or after an
/// operator.
pub proof fn lemma_signs_have_a_left_operand(text: Seq<char>)
    ensures
        forall|i: int|
            0 <= i < scan(text).len() && ((#[trigger] scan(text)[i]).kind == TokenType::Plus
                || scan(text)[i].kind == TokenType::Minus) ==> has_left_operand(scan(text), i),
    decreases text.len(),
{
    if text.len() > 0 {
        let before = text.drop_last();
        lemma_signs_have_a_left_operand(before);
        lemma_scan_is_well_formed(before);
        let tokens = scan(before);
        let after = scan(text);
        assert forall|i: int|
            0 <= i < after.len() && ((#[trigger] after[i]).kind == TokenType::Plus || after[i].kind
                == TokenType::Minus) implies has_left_operand(after, i) by {
            if i < tokens.len() && after[i] == tokens[i] {
                assert(has_left_operand(tokens, i));
                assert(after[i - 1].kind == tokens[i - 1].kind);
            }
        }
    }
}

/// A text of spaces and newlines alone has no tokens.
pub proof fn lemma_blank_text_has_no_tokens(text: Seq<char>)
    requires
        forall|i: int| 0 <= i < text.len() ==> is_blank(#[trigger] text[i]),
    ensures
        all_accepted(text),
        scan(text) == Seq::<Lexeme>::empty(),
    decreases text.len(),
{
    if text.len() > 0 {
        lemma_blank_text_has_no_tokens(text.drop_last());
    }
}

/// Whether every token of `tokens` is well formed.
pub open spec fn well_formed_tokens(tokens: Seq<Lexeme>) -> bool {
    forall|i: int| 0 <= i < tokens.len() ==> (#[trigger] tokens[i]).well_formed()
}

/// Whether every plus and minus of `tokens` has an operand before it.
pub open spec fn signs_have_left_operands(tokens: Seq<Lexeme>) -> bool {
    forall|i: int|
        0 <= i < tokens.len() && ((#[trigger] tokens[i]).kind == TokenType::Plus || tokens[i].kind
            == TokenType::Minus) ==> has_left_operand(tokens, i)
}

/// The texts of `tokens` in a row, each followed by a space.
pub open spec fn spelling(tokens: Seq<Lexeme>) -> Seq<char>
    decreases tokens.len(),
{
    if tokens.len() == 0 {
        Seq::empty()
    } else {
        spelling(tokens.drop_last()) + tokens.last().text + seq![' ']
    }
}

/// A run of digits after a text that does not end in a digit is one more
/// literal.
pub proof fn lemma_scan_of_digits(before: Seq<char>, digits: Seq<char>)
    requires
        (Lexeme { kind: TokenType::Int, text: digits }).well_formed(),
        before.len() == 0 || !is_digit(before.last()),
    ensures
        scan(before + digits) == scan(before).push(Lexeme { kind: TokenType::Int, text: digits }),
    decreases digits.len(),
{
    let text = before + digits;
    let ch = digits.last();
    assert(ch == digits[digits.len() - 1]);
    assert(text.last() == ch);
    if digits.len() == 1 {
        assert(text.drop_last() =~= before);
        assert(seq![ch] =~= digits);
    } else {
        let shorter = digits.drop_last();
        assert forall|i: int| 0 <= i < shorter.len() implies is_digit(#[trigger] shorter[i]) by {
            assert(shorter[i] == digits[i]);
        }
        lemma_scan_of_digits(before, shorter);
        assert(text.drop_last() =~= before + shorter);
        assert((before + shorter).last() == shorter.last());
        assert(shorter.last() == digits[digits.len() - 2]);
        assert(shorter.push(ch) =~= digits);
        assert(scan(before).push(Lexeme { kind: TokenType::Int, text: shorter }).drop_last()
            =~= scan(before));
    }
}

/// Scanning undoes spelling: where the tokens are well formed and no sign
/// lacks its left operand, their spelling is accepted and gives them back.
pub proof fn lemma_scan_inverts_spelling(tokens: Seq<Lexeme>)
    requires
        well_formed_tokens(tokens),
        signs_have_left_operands(tokens),
    ensures
        all_accepted(spelling(tokens)),
        scan(spelling(tokens)) == tokens,
        tokens.len() > 0 ==> spelling(tokens).len() > 0 && spelling(tokens).last() == ' ',
    decreases tokens.len(),
{
    if tokens.len() == 0 {
        assert(scan(spelling(tokens)) =~= tokens);
    } else {
        let earlier = tokens.drop_last();
        let token = tokens.last();
        assert(token == tokens[tokens.len() - 1]);
        assert(token.well_formed());
        assert forall|i: int| 0 <= i < earlier.len() implies (
        #[trigger] earlier[i]).well_formed() by {
            assert(earlier[i] == tokens[i]);
        }
        assert forall|i: int|
            0 <= i < earlier.len() && ((#[trigger] earlier[i]).kind == TokenType::Plus
                || earlier[i].kind == TokenType::Minus) implies has_left_operand(earlier, i) by {
            assert(earlier[i] == tokens[i]);
            assert(has_left_operand(tokens, i));
            assert(earlier[i - 1] == tokens[i - 1]);
        }
        lemma_scan_inverts_spelling(earlier);
        let before = spelling(earlier);
        let written = before + token.text;
        let text = spelling(tokens);
        assert(text =~= written.push(' '));
        assert(text.drop_last() =~= written);
        if token.kind == TokenType::Int {
            lemma_scan_of_digits(before, token.text);
        } else {
            let ch = symbol_of(token.kind);
            assert(written =~= before.push(ch));
            assert(written.drop_last() =~= before);
            assert(symbol_kind(ch) == Some(token.kind));
            assert(token == Lexeme { kind: token.kind, text: seq![ch] });
            if token.kind == TokenType::Plus || token.kind == TokenType::Minus {
                assert(has_left_operand(tokens, tokens.len() - 1));
                assert(earlier.last() == tokens[tokens.len() - 2]);
            }
        }
        assert(scan(written) == earlier.push(token));
        assert(earlier.push(token) =~= tokens);
        assert forall|j: int| 0 <= j < text.len() implies is_accepted(#[trigger] text[j]) by {
            if j < before.len() {
                assert(text[j] == before[j]);
            } else if j < written.len() {
                assert(text[j] == token.text[j - before.len()]);
            }
        }
    }
}

} // verus!
