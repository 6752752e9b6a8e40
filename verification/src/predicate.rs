//! The predicate filter language: `lr > 1e-3 and status == active`.
//!
//! Small on purpose (comparisons, `and`/`or`/`not`, parentheses — no
//! functions, no arithmetic): it filters a runs table, it is not a query
//! engine. Fields resolve against a run in order: the built-ins `run`/`name`
//! and `status`, then hyperparameter keys, then scalar tags (their last
//! value) — by exact name first, then by unique `/`-suffix, so `loss < 0.5`
//! finds `train/loss` when nothing else ends in `/loss`.
use vstd::prelude::*;

use crate::discover::{contains_text, within};
use crate::double::{below, equal, finite, is_below, is_equal, is_finite};
use crate::hparams::HparamValue;
use crate::numeric::Wording;
use crate::run::{resolve_name, resolves, Run};
use crate::series::{last_point, Series};
use crate::text::{chars_of, first_index, push_text, same_text, text_between};

verus! {

/// A comparison.
#[derive(Clone, Copy, PartialEq, Eq, Structural, Debug)]
pub enum Op {
    Eq,
    Ne,
    Gt,
    Ge,
    Lt,
    Le,
    /// `~`: substring on the field's text form.
    Contains,
}

/// A value to compare against.
#[derive(PartialEq, Debug)]
pub enum Literal {
    /// A number: the bits of a double.
    Number(u64),
    Text(String),
    Bool(bool),
}

/// What a [`Literal`] holds.
#[verifier::ext_equal]
pub enum LiteralModel {
    Number(u64),
    Text(Seq<char>),
    Truth(bool),
}

impl View for Literal {
    type V = LiteralModel;

    open spec fn view(&self) -> LiteralModel {
        match *self {
            Literal::Number(bits) => LiteralModel::Number(bits),
            Literal::Text(text) => LiteralModel::Text(text@),
            Literal::Bool(truth) => LiteralModel::Truth(truth),
        }
    }
}

/// An expression.
#[derive(PartialEq, Debug)]
pub enum Expr {
    Or(Box<Expr>, Box<Expr>),
    And(Box<Expr>, Box<Expr>),
    Not(Box<Expr>),
    Compare {
        field: String,
        op: Op,
        value: Literal,
    },
}

/// What an [`Expr`] holds.
#[verifier::ext_equal]
pub enum ExprModel {
    Or(Box<ExprModel>, Box<ExprModel>),
    And(Box<ExprModel>, Box<ExprModel>),
    Not(Box<ExprModel>),
    Compare { field: Seq<char>, op: Op, value: LiteralModel },
}

impl Expr {
    /// What the expression holds.
    pub open spec fn model(self) -> ExprModel
        decreases self,
    {
        match self {
            Expr::Or(a, b) => ExprModel::Or(Box::new(a.model()), Box::new(b.model())),
            Expr::And(a, b) => ExprModel::And(Box::new(a.model()), Box::new(b.model())),
            Expr::Not(inner) => ExprModel::Not(Box::new(inner.model())),
            Expr::Compare { field, op, value } => ExprModel::Compare {
                field: field@,
                op,
                value: value@,
            },
        }
    }
}

/// A parsed predicate, evaluatable against runs.
#[derive(PartialEq, Debug)]
pub struct Predicate {
    root: Expr,
}

impl View for Predicate {
    type V = ExprModel;

    closed spec fn view(&self) -> ExprModel {
        self.root.model()
    }
}

/// A word, a mark or a literal of the language.
#[derive(PartialEq, Debug)]
pub enum Token {
    Ident(String),
    /// A number: the bits of a double.
    Number(u64),
    Text(String),
    Op(Op),
    LeftParen,
    RightParen,
    And,
    Or,
    Not,
}

/// What a [`Token`] holds.
#[verifier::ext_equal]
pub enum TokenModel {
    Ident(Seq<char>),
    Number(u64),
    Text(Seq<char>),
    Op(Op),
    LeftParen,
    RightParen,
    And,
    Or,
    Not,
}

impl View for Token {
    type V = TokenModel;

    open spec fn view(&self) -> TokenModel {
        match *self {
            Token::Ident(text) => TokenModel::Ident(text@),
            Token::Number(bits) => TokenModel::Number(bits),
            Token::Text(text) => TokenModel::Text(text@),
            Token::Op(op) => TokenModel::Op(op),
            Token::LeftParen => TokenModel::LeftParen,
            Token::RightParen => TokenModel::RightParen,
            Token::And => TokenModel::And,
            Token::Or => TokenModel::Or,
            Token::Not => TokenModel::Not,
        }
    }
}

/// What a list of tokens holds.
pub open spec fn token_models(tokens: Seq<Token>) -> Seq<TokenModel> {
    tokens.map_values(|token: Token| token@)
}

/// Whether a character beyond ASCII is a letter or a number in Unicode.
pub uninterp spec fn alphanumeric(c: char) -> bool;

/// Whether a character is a letter or a digit of ASCII.
pub open spec fn ascii_alphanumeric(c: char) -> bool {
    '0' <= c <= '9' || 'a' <= c <= 'z' || 'A' <= c <= 'Z'
}

/// `char::is_alphanumeric`: whether a character is alphabetic or numeric in
/// Unicode. In ASCII these are the letters and the digits.
#[verifier::external_body]
fn is_alphanumeric(c: char) -> (result: bool)
    ensures
        result == letter_or_number(c),
        (c as u32) >= 0x80 ==> result == alphanumeric(c),
{
    c.is_alphanumeric()
}

/// Whether a character is a letter or a number.
pub open spec fn letter_or_number(c: char) -> bool {
    if (c as u32) < 0x80 {
        ascii_alphanumeric(c)
    } else {
        alphanumeric(c)
    }
}

/// Whether a character can stand in a word.
pub open spec fn word_char(c: char) -> bool {
    letter_or_number(c) || c == '/' || c == '_' || c == '.' || c == '-' || c == '+'
}

/// How long the word at the front of a text is.
pub open spec fn word_length(s: Seq<char>) -> nat
    decreases s.len(),
{
    if s.len() > 0 && word_char(s[0]) {
        1 + word_length(s.skip(1))
    } else {
        0
    }
}

/// What stands at the front of a text.
#[verifier::ext_equal]
pub enum Lexeme {
    /// Blank space.
    Blank,
    /// A token, of that many characters.
    Token(TokenModel, nat),
    /// Something that is no token, with the sentence that says so.
    Wrong(Seq<char>),
}

impl<F: Fn(&str) -> Option<u64>, P: Fn(u64) -> String> Wording<F, P> {
    /// The token of a word.
    pub open spec fn word(self, word: Seq<char>) -> TokenModel {
        if word == "and"@ {
            TokenModel::And
        } else if word == "or"@ {
            TokenModel::Or
        } else if word == "not"@ {
            TokenModel::Not
        } else if word == "true"@ || word == "false"@ {
            TokenModel::Ident(word)
        } else {
            match self.read(word) {
                Some(bits) => TokenModel::Number(bits),
                None => TokenModel::Ident(word),
            }
        }
    }

    /// What stands at the front of a text.
    pub open spec fn lexeme(self, s: Seq<char>) -> Lexeme {
        let c = s[0];
        let paired = s.len() > 1 && s[1] == '=';
        if c == ' ' || c == '\t' {
            Lexeme::Blank
        } else if c == '(' {
            Lexeme::Token(TokenModel::LeftParen, 1)
        } else if c == ')' {
            Lexeme::Token(TokenModel::RightParen, 1)
        } else if c == '~' {
            Lexeme::Token(TokenModel::Op(Op::Contains), 1)
        } else if c == '=' {
            if paired {
                Lexeme::Token(TokenModel::Op(Op::Eq), 2)
            } else {
                Lexeme::Wrong("use `==` for equality"@)
            }
        } else if c == '!' {
            if paired {
                Lexeme::Token(TokenModel::Op(Op::Ne), 2)
            } else {
                Lexeme::Wrong("use `!=` for inequality"@)
            }
        } else if c == '>' {
            if paired {
                Lexeme::Token(TokenModel::Op(Op::Ge), 2)
            } else {
                Lexeme::Token(TokenModel::Op(Op::Gt), 1)
            }
        } else if c == '<' {
            if paired {
                Lexeme::Token(TokenModel::Op(Op::Le), 2)
            } else {
                Lexeme::Token(TokenModel::Op(Op::Lt), 1)
            }
        } else if c == '\'' || c == '"' {
            match first_index(s.skip(1), c) {
                Some(i) => Lexeme::Token(
                    TokenModel::Text(s.skip(1).take(i)),
                    (i + 2) as nat,
                ),
                None => Lexeme::Wrong("unterminated string"@),
            }
        } else if word_length(s) == 0 {
            Lexeme::Wrong("unexpected character `"@.push(c).push('`'))
        } else {
            Lexeme::Token(self.word(s.take(word_length(s) as int)), word_length(s))
        }
    }

    /// The tokens of a text, or what is wrong with it.
    pub open spec fn tokens(self, s: Seq<char>) -> Result<Seq<TokenModel>, Seq<char>>
        decreases s.len(),
    {
        if s.len() == 0 {
            Ok(Seq::empty())
        } else {
            match self.lexeme(s) {
                Lexeme::Blank => self.tokens(s.skip(1)),
                Lexeme::Token(token, n) => if 0 < n <= s.len() {
                    match self.tokens(s.skip(n as int)) {
                        Ok(more) => Ok(seq![token] + more),
                        Err(sentence) => Err(sentence),
                    }
                } else {
                    Ok(Seq::empty())
                },
                Lexeme::Wrong(sentence) => Err(sentence),
            }
        }
    }

    /// How a token is named in a sentence.
    pub open spec fn named(self, token: TokenModel) -> Seq<char> {
        match token {
            TokenModel::Ident(text) => text,
            TokenModel::Number(bits) => self.written(bits),
            TokenModel::Text(text) => seq!['\''] + text.push('\''),
            TokenModel::Op(_) => "comparison"@,
            TokenModel::LeftParen => "("@,
            TokenModel::RightParen => ")"@,
            TokenModel::And => "and"@,
            TokenModel::Or => "or"@,
            TokenModel::Not => "not"@,
        }
    }
}

/// The length of the word at the front of a text.
fn word_len(chars: &Vec<char>, from: usize) -> (n: usize)
    requires
        from <= chars@.len(),
    ensures
        n == word_length(chars@.skip(from as int)),
        from + n <= chars.len(),
{
    let mut i: usize = from;
    while i < chars.len()
        invariant
            from <= i <= chars@.len(),
            word_length(chars@.skip(from as int)) == (i - from) + word_length(
                chars@.skip(i as int),
            ),
        decreases chars@.len() - i,
    {
        let c = chars[i];
        proof {
            assert(chars@.skip(i as int)[0] == c);
            assert(chars@.skip(i as int).skip(1) =~= chars@.skip(i + 1));
        }
        if !(is_alphanumeric(c) || c == '/' || c == '_' || c == '.' || c == '-' || c == '+') {
            return i - from;
        }
        i += 1;
    }
    i - from
}

/// Where a quote next stands at or behind an index.
fn find_quote(chars: &Vec<char>, from: usize, quote: char) -> (found: Option<usize>)
    requires
        from <= chars@.len(),
    ensures
        match found {
            Some(i) => from <= i < chars@.len() && first_index(
                chars@.skip(from as int),
                quote,
            ) == Some(i - from),
            None => first_index(chars@.skip(from as int), quote) is None,
        },
{
    let mut i: usize = from;
    while i < chars.len()
        invariant
            from <= i <= chars@.len(),
            first_index(chars@.skip(from as int), quote) == (match first_index(
                chars@.skip(i as int),
                quote,
            ) {
                Some(k) => Some(k + (i - from)),
                None => None,
            }),
        decreases chars@.len() - i,
    {
        assert(chars@.skip(i as int)[0] == chars@[i as int]);
        assert(chars@.skip(i as int).skip(1) =~= chars@.skip(i + 1));
        if chars[i] == quote {
            return Some(i);
        }
        i += 1;
    }
    None
}

/// What stands at the front of a text.
enum Piece {
    Blank,
    Token(Token, usize),
    Wrong(String),
}

impl<F: Fn(&str) -> Option<u64>, P: Fn(u64) -> String> Wording<F, P> {
    /// The token of a word.
    fn token_of_word(&self, word: String) -> (token: Token)
        requires
            self.ok(),
        ensures
            token@ == self.word(word@),
    {
        if same_text(&word, "and") {
            Token::And
        } else if same_text(&word, "or") {
            Token::Or
        } else if same_text(&word, "not") {
            Token::Not
        } else if same_text(&word, "true") || same_text(&word, "false") {
            Token::Ident(word)
        } else {
            match self.parse(&word) {
                Some(bits) => Token::Number(bits),
                None => Token::Ident(word),
            }
        }
    }

    /// What stands at an index of a text.
    fn piece(&self, chars: &Vec<char>, at: usize) -> (piece: Piece)
        requires
            self.ok(),
            at < chars.len(),
        ensures
            match piece {
                Piece::Blank => self.lexeme(chars@.skip(at as int)) == Lexeme::Blank,
                Piece::Token(token, n) => {
                    &&& self.lexeme(chars@.skip(at as int)) == Lexeme::Token(token@, n as nat)
                    &&& 0 < n
                    &&& at + n <= chars.len()
                },
                Piece::Wrong(sentence) => self.lexeme(chars@.skip(at as int)) == Lexeme::Wrong(
                    sentence@,
                ),
            },
    {
        let ghost s = chars@.skip(at as int);
        let c = chars[at];
        assert(s[0] == c);
        let paired = at + 1 < chars.len() && chars[at + 1] == '=';
        assert(paired == (s.len() > 1 && s[1] == '='));
        match c {
            ' ' => Piece::Blank,
            '\t' => Piece::Blank,
            '(' => Piece::Token(Token::LeftParen, 1),
            ')' => Piece::Token(Token::RightParen, 1),
            '~' => Piece::Token(Token::Op(Op::Contains), 1),
            '=' => if paired {
                Piece::Token(Token::Op(Op::Eq), 2)
            } else {
                Piece::Wrong("use `==` for equality".to_owned())
            },
            '!' => if paired {
                Piece::Token(Token::Op(Op::Ne), 2)
            } else {
                Piece::Wrong("use `!=` for inequality".to_owned())
            },
            '>' => if paired {
                Piece::Token(Token::Op(Op::Ge), 2)
            } else {
                Piece::Token(Token::Op(Op::Gt), 1)
            },
            '<' => if paired {
                Piece::Token(Token::Op(Op::Le), 2)
            } else {
                Piece::Token(Token::Op(Op::Lt), 1)
            },
            _ => self.long_piece(chars, at),
        }
    }

    /// A quoted text or a word at an index of a text.
    fn long_piece(&self, chars: &Vec<char>, at: usize) -> (piece: Piece)
        requires
            self.ok(),
            at < chars.len(),
            ({
                let c = chars@[at as int];
                c != ' ' && c != '\t' && c != '(' && c != ')' && c != '~' && c != '=' && c != '!'
                    && c != '>' && c != '<'
            }),
        ensures
            match piece {
                Piece::Blank => false,
                Piece::Token(token, n) => {
                    &&& self.lexeme(chars@.skip(at as int)) == Lexeme::Token(token@, n as nat)
                    &&& 0 < n
                    &&& at + n <= chars.len()
                },
                Piece::Wrong(sentence) => self.lexeme(chars@.skip(at as int)) == Lexeme::Wrong(
                    sentence@,
                ),
            },
    {
        let ghost s = chars@.skip(at as int);
        let c = chars[at];
        assert(s[0] == c);
        if c == '\'' || c == '"' {
            assert(s.skip(1) =~= chars@.skip(at + 1));
            match find_quote(chars, at + 1, c) {
                Some(end) => {
                    let text = text_between(chars, at + 1, end);
                    assert(text@ =~= s.skip(1).take(end - at - 1));
                    Piece::Token(Token::Text(text), end - at + 1)
                },
                None => Piece::Wrong("unterminated string".to_owned()),
            }
        } else {
            let n: usize = word_len(chars, at);
            if n == 0 {
                let mut sentence = "unexpected character `".to_owned();
                sentence.push(c);
                sentence.push('`');
                Piece::Wrong(sentence)
            } else {
                let word = text_between(chars, at, at + n);
                assert(word@ =~= s.take(n as int));
                Piece::Token(self.token_of_word(word), n)
            }
        }
    }

    /// The tokens of a text, or what is wrong with it.
    pub fn tokenize(&self, input: &str) -> (result: Result<Vec<Token>, String>)
        requires
            self.ok(),
        ensures
            match result {
                Ok(tokens) => self.tokens(input@) == Ok::<Seq<TokenModel>, Seq<char>>(
                    token_models(tokens@),
                ),
                Err(sentence) => self.tokens(input@) == Err::<Seq<TokenModel>, Seq<char>>(
                    sentence@,
                ),
            },
    {
        let chars = chars_of(input);
        let mut tokens: Vec<Token> = Vec::new();
        let mut at: usize = 0;
        let ghost whole = self.tokens(input@);
        proof {
            assert(chars@.skip(0) =~= input@);
            assert(token_models(tokens@) =~= Seq::<TokenModel>::empty());
            if let Ok(all) = whole {
                assert(token_models(tokens@) + all =~= all);
            }
        }
        while at < chars.len()
            invariant
                at <= chars@.len(),
                self.ok(),
                whole == self.tokens(input@),
                match self.tokens(chars@.skip(at as int)) {
                    Ok(more) => whole == Ok::<Seq<TokenModel>, Seq<char>>(
                        token_models(tokens@) + more,
                    ),
                    Err(sentence) => whole == Err::<Seq<TokenModel>, Seq<char>>(sentence),
                },
            decreases chars@.len() - at,
        {
            let ghost s = chars@.skip(at as int);
            let ghost before = token_models(tokens@);
            match self.piece(&chars, at) {
                Piece::Blank => {
                    assert(s.skip(1) =~= chars@.skip(at + 1));
                    at = at + 1;
                },
                Piece::Token(token, n) => {
                    proof {
                        assert(s.skip(n as int) =~= chars@.skip(at + n));
                        if let Ok(more) = self.tokens(chars@.skip(at + n)) {
                            assert(before + (seq![token@] + more) =~= before.push(token@) + more);
                        }
                    }
                    tokens.push(token);
                    assert(token_models(tokens@) =~= before.push(token@));
                    at = at + n;
                },
                Piece::Wrong(sentence) => {
                    return Err(sentence);
                },
            }
        }
        proof {
            assert(chars@.skip(at as int) =~= Seq::<char>::empty());
            assert(token_models(tokens@) + Seq::<TokenModel>::empty() =~= token_models(tokens@));
        }
        Ok(tokens)
    }

    /// How a token is named in a sentence.
    fn name_of(&self, token: &Token) -> (text: String)
        requires
            self.ok(),
        ensures
            text@ == self.named(token@),
    {
        match token {
            Token::Ident(text) => text.clone(),
            Token::Number(bits) => self.write(*bits),
            Token::Text(text) => {
                let mut quoted = "'".to_owned();
                proof {
                    reveal_strlit("'");
                }
                push_text(&mut quoted, text);
                quoted.push('\'');
                assert(quoted@ =~= seq!['\''] + text@.push('\''));
                quoted
            },
            Token::Op(_) => "comparison".to_owned(),
            Token::LeftParen => "(".to_owned(),
            Token::RightParen => ")".to_owned(),
            Token::And => "and".to_owned(),
            Token::Or => "or".to_owned(),
            Token::Not => "not".to_owned(),
        }
    }
}

/// What parsing gives: an expression and the tokens left, or what is wrong.
pub type Parsed = Result<(ExprModel, Seq<TokenModel>), Seq<char>>;

/// A literal token, as a value to compare against.
pub open spec fn literal_of(token: TokenModel) -> Option<LiteralModel> {
    match token {
        TokenModel::Number(bits) => Some(LiteralModel::Number(bits)),
        TokenModel::Text(text) => Some(LiteralModel::Text(text)),
        TokenModel::Ident(word) => Some(
            if word == "true"@ {
                LiteralModel::Truth(true)
            } else if word == "false"@ {
                LiteralModel::Truth(false)
            } else {
                LiteralModel::Text(word)
            },
        ),
        _ => None,
    }
}

impl<F: Fn(&str) -> Option<u64>, P: Fn(u64) -> String> Wording<F, P> {
    /// A comparison at the front of tokens: a field, an operator, a value.
    pub open spec fn comparison_of(self, tokens: Seq<TokenModel>) -> Parsed {
        if tokens.len() == 0 {
            Err("expected a field name"@)
        } else {
            match tokens[0] {
                TokenModel::Ident(field) => if tokens.len() < 2 || !(tokens[1] is Op) {
                    Err("expected a comparison after `"@ + field.push('`'))
                } else if tokens.len() < 3 || literal_of(tokens[2]) is None {
                    Err("expected a value to compare against"@)
                } else {
                    Ok(
                        (
                            ExprModel::Compare {
                                field,
                                op: tokens[1]->Op_0,
                                value: literal_of(tokens[2])->0,
                            },
                            tokens.skip(3),
                        ),
                    )
                },
                other => Err("expected a field name, got `"@ + self.named(other).push('`')),
            }
        }
    }

    /// A negation, a bracket or a comparison at the front of tokens.
    pub open spec fn unary_of(self, tokens: Seq<TokenModel>) -> Parsed
        decreases tokens.len(), 1int,
    {
        if tokens.len() > 0 && tokens[0] is Not {
            match self.unary_of(tokens.skip(1)) {
                Ok((inner, rest)) => Ok((ExprModel::Not(Box::new(inner)), rest)),
                Err(sentence) => Err(sentence),
            }
        } else if tokens.len() > 0 && tokens[0] is LeftParen {
            match self.expr_of(tokens.skip(1)) {
                Ok((inner, rest)) => if rest.len() > 0 && rest[0] is RightParen {
                    Ok((inner, rest.skip(1)))
                } else {
                    Err("missing `)`"@)
                },
                Err(sentence) => Err(sentence),
            }
        } else {
            self.comparison_of(tokens)
        }
    }

    /// What follows the first operand of `and`s.
    pub open spec fn and_tail(self, left: ExprModel, tokens: Seq<TokenModel>) -> Parsed
        decreases tokens.len(), 2int,
    {
        if tokens.len() > 0 && tokens[0] is And {
            match self.unary_of(tokens.skip(1)) {
                Ok((right, rest)) => if rest.len() < tokens.len() {
                    self.and_tail(ExprModel::And(Box::new(left), Box::new(right)), rest)
                } else {
                    Ok((left, tokens))
                },
                Err(sentence) => Err(sentence),
            }
        } else {
            Ok((left, tokens))
        }
    }

    /// Operands of `and`, at the front of tokens.
    pub open spec fn and_of(self, tokens: Seq<TokenModel>) -> Parsed
        decreases tokens.len(), 3int,
    {
        match self.unary_of(tokens) {
            Ok((left, rest)) => if rest.len() < tokens.len() {
                self.and_tail(left, rest)
            } else {
                Ok((left, rest))
            },
            Err(sentence) => Err(sentence),
        }
    }

    /// What follows the first operand of `or`s.
    pub open spec fn or_tail(self, left: ExprModel, tokens: Seq<TokenModel>) -> Parsed
        decreases tokens.len(), 4int,
    {
        if tokens.len() > 0 && tokens[0] is Or {
            match self.and_of(tokens.skip(1)) {
                Ok((right, rest)) => if rest.len() < tokens.len() {
                    self.or_tail(ExprModel::Or(Box::new(left), Box::new(right)), rest)
                } else {
                    Ok((left, tokens))
                },
                Err(sentence) => Err(sentence),
            }
        } else {
            Ok((left, tokens))
        }
    }

    /// Operands of `or`, at the front of tokens: `and` binds tighter.
    pub open spec fn expr_of(self, tokens: Seq<TokenModel>) -> Parsed
        decreases tokens.len(), 5int,
    {
        match self.and_of(tokens) {
            Ok((left, rest)) => if rest.len() < tokens.len() {
                self.or_tail(left, rest)
            } else {
                Ok((left, rest))
            },
            Err(sentence) => Err(sentence),
        }
    }

    /// What a predicate text means, or what is wrong with it.
    pub open spec fn predicate(self, input: Seq<char>) -> Result<ExprModel, Seq<char>> {
        match self.tokens(input) {
            Err(sentence) => Err(sentence),
            Ok(tokens) => match self.expr_of(tokens) {
                Err(sentence) => Err(sentence),
                Ok((root, rest)) => if rest.len() == 0 {
                    Ok(root)
                } else {
                    Err("unexpected `"@ + self.named(rest[0]).push('`'))
                },
            },
        }
    }
}

/// What is left of parsed tokens is their end, and shorter.
pub open spec fn shrinks(tokens: Seq<TokenModel>, parsed: Parsed, strictly: bool) -> bool {
    parsed matches Ok((expr, rest)) ==> {
        &&& rest.len() <= tokens.len()
        &&& strictly ==> rest.len() < tokens.len()
        &&& rest == tokens.skip(tokens.len() - rest.len())
    }
}

proof fn lemma_skips(tokens: Seq<TokenModel>, a: int, rest: Seq<TokenModel>)
    requires
        0 <= a <= tokens.len(),
        rest.len() <= tokens.skip(a).len(),
        rest == tokens.skip(a).skip(tokens.skip(a).len() - rest.len()),
    ensures
        rest == tokens.skip(tokens.len() - rest.len()),
{
    assert(rest =~= tokens.skip(tokens.len() - rest.len()));
}

impl<F: Fn(&str) -> Option<u64>, P: Fn(u64) -> String> Wording<F, P> {
    proof fn lemma_unary_shrinks(self, tokens: Seq<TokenModel>)
        ensures
            shrinks(tokens, self.unary_of(tokens), true),
        decreases tokens.len(), 1int,
    {
        if tokens.len() > 0 && tokens[0] is Not {
            self.lemma_unary_shrinks(tokens.skip(1));
            if let Ok((inner, rest)) = self.unary_of(tokens.skip(1)) {
                lemma_skips(tokens, 1, rest);
            }
        } else if tokens.len() > 0 && tokens[0] is LeftParen {
            self.lemma_expr_shrinks(tokens.skip(1));
            if let Ok((inner, rest)) = self.expr_of(tokens.skip(1)) {
                lemma_skips(tokens, 1, rest);
                if rest.len() > 0 {
                    assert(rest.skip(1) =~= tokens.skip(tokens.len() - rest.skip(1).len()));
                }
            }
        } else if let Ok((inner, rest)) = self.comparison_of(tokens) {
            assert(rest =~= tokens.skip(tokens.len() - rest.len()));
        }
    }

    proof fn lemma_and_tail_shrinks(self, left: ExprModel, tokens: Seq<TokenModel>)
        ensures
            shrinks(tokens, self.and_tail(left, tokens), false),
        decreases tokens.len(), 2int,
    {
        assert(tokens =~= tokens.skip(0));
        if tokens.len() > 0 && tokens[0] is And {
            self.lemma_unary_shrinks(tokens.skip(1));
            if let Ok((right, rest)) = self.unary_of(tokens.skip(1)) {
                lemma_skips(tokens, 1, rest);
                let joined = ExprModel::And(Box::new(left), Box::new(right));
                self.lemma_and_tail_shrinks(joined, rest);
                if let Ok((expr, last)) = self.and_tail(joined, rest) {
                    lemma_skips(tokens, tokens.len() - rest.len(), last);
                }
            }
        }
    }

    proof fn lemma_and_shrinks(self, tokens: Seq<TokenModel>)
        ensures
            shrinks(tokens, self.and_of(tokens), true),
        decreases tokens.len(), 3int,
    {
        self.lemma_unary_shrinks(tokens);
        if let Ok((left, rest)) = self.unary_of(tokens) {
            self.lemma_and_tail_shrinks(left, rest);
            if let Ok((expr, last)) = self.and_tail(left, rest) {
                lemma_skips(tokens, tokens.len() - rest.len(), last);
            }
        }
    }

    proof fn lemma_or_tail_shrinks(self, left: ExprModel, tokens: Seq<TokenModel>)
        ensures
            shrinks(tokens, self.or_tail(left, tokens), false),
        decreases tokens.len(), 4int,
    {
        assert(tokens =~= tokens.skip(0));
        if tokens.len() > 0 && tokens[0] is Or {
            self.lemma_and_shrinks(tokens.skip(1));
            if let Ok((right, rest)) = self.and_of(tokens.skip(1)) {
                lemma_skips(tokens, 1, rest);
                let joined = ExprModel::Or(Box::new(left), Box::new(right));
                self.lemma_or_tail_shrinks(joined, rest);
                if let Ok((expr, last)) = self.or_tail(joined, rest) {
                    lemma_skips(tokens, tokens.len() - rest.len(), last);
                }
            }
        }
    }

    proof fn lemma_expr_shrinks(self, tokens: Seq<TokenModel>)
        ensures
            shrinks(tokens, self.expr_of(tokens), true),
        decreases tokens.len(), 5int,
    {
        self.lemma_and_shrinks(tokens);
        if let Ok((left, rest)) = self.and_of(tokens) {
            self.lemma_or_tail_shrinks(left, rest);
            if let Ok((expr, last)) = self.or_tail(left, rest) {
                lemma_skips(tokens, tokens.len() - rest.len(), last);
            }
        }
    }
}

/// Reads tokens from front to back.
pub struct TokenReader {
    tokens: Vec<Token>,
    pos: usize,
}

impl TokenReader {
    /// The tokens left.
    pub closed spec fn rest(self) -> Seq<TokenModel> {
        token_models(self.tokens@).skip(self.pos as int)
    }

    /// The position is inside the tokens.
    pub closed spec fn wf(self) -> bool {
        self.pos <= self.tokens@.len()
    }

    /// A parser at the start of tokens.
    pub fn new(tokens: Vec<Token>) -> (parser: TokenReader)
        ensures
            parser.wf(),
            parser.rest() == token_models(tokens@),
    {
        let parser = TokenReader { tokens, pos: 0 };
        assert(parser.rest() =~= token_models(tokens@));
        parser
    }

    /// The next token.
    fn peek(&self) -> (token: Option<&Token>)
        requires
            self.wf(),
        ensures
            match token {
                Some(t) => self.rest().len() > 0 && self.rest()[0] == t@,
                None => self.rest().len() == 0,
            },
    {
        if self.pos < self.tokens.len() {
            Some(&self.tokens[self.pos])
        } else {
            None
        }
    }

    /// Passes over the next token.
    fn advance(&mut self)
        requires
            old(self).wf(),
            old(self).rest().len() > 0,
        ensures
            final(self).wf(),
            final(self).rest() == old(self).rest().skip(1),
    {
        let ghost before = self.rest();
        assert(self.pos < self.tokens.len());
        self.pos = self.pos + 1;
        assert(self.rest() =~= before.skip(1));
    }

    /// A field, an operator, a value.
    fn comparison<F: Fn(&str) -> Option<u64>, P: Fn(u64) -> String>(
        &mut self,
        wording: &Wording<F, P>,
    ) -> (result: Result<Expr, String>)
        requires
            old(self).wf(),
            wording.ok(),
        ensures
            final(self).wf(),
            match result {
                Ok(expr) => wording.comparison_of(old(self).rest()) == Ok::<
                    (ExprModel, Seq<TokenModel>),
                    Seq<char>,
                >((expr.model(), final(self).rest())),
                Err(sentence) => wording.comparison_of(old(self).rest()) == Err::<
                    (ExprModel, Seq<TokenModel>),
                    Seq<char>,
                >(sentence@),
            },
    {
        let ghost tokens = self.rest();
        let field = match self.peek() {
            Some(Token::Ident(name)) => name.clone(),
            Some(other) => {
                let mut sentence = "expected a field name, got `".to_owned();
                let ghost front = sentence@;
                let name = wording.name_of(other);
                push_text(&mut sentence, &name);
                sentence.push('`');
                assert(sentence@ =~= front + name@.push('`'));
                return Err(sentence);
            },
            None => {
                return Err("expected a field name".to_owned());
            },
        };
        self.advance();
        let op = match self.peek() {
            Some(Token::Op(op)) => *op,
            _ => {
                let mut sentence = "expected a comparison after `".to_owned();
                let ghost front = sentence@;
                push_text(&mut sentence, &field);
                sentence.push('`');
                assert(sentence@ =~= front + field@.push('`'));
                assert(tokens.len() < 2 || tokens.skip(1)[0] == tokens[1]);
                return Err(sentence);
            },
        };
        assert(tokens.skip(1)[0] == tokens[1]);
        self.advance();
        assert(self.rest() =~= tokens.skip(2));
        assert(tokens.len() < 3 || tokens.skip(2)[0] == tokens[2]);
        let value = match self.peek() {
            Some(Token::Number(bits)) => Literal::Number(*bits),
            Some(Token::Text(text)) => Literal::Text(text.clone()),
            Some(Token::Ident(word)) => {
                if same_text(word, "true") {
                    Literal::Bool(true)
                } else if same_text(word, "false") {
                    Literal::Bool(false)
                } else {
                    Literal::Text(word.clone())
                }
            },
            _ => {
                return Err("expected a value to compare against".to_owned());
            },
        };
        self.advance();
        assert(self.rest() =~= tokens.skip(3));
        Ok(Expr::Compare { field, op, value })
    }

    /// A negation, a bracket or a comparison.
    fn unary<F: Fn(&str) -> Option<u64>, P: Fn(u64) -> String>(
        &mut self,
        wording: &Wording<F, P>,
    ) -> (result: Result<Expr, String>)
        requires
            old(self).wf(),
            wording.ok(),
        ensures
            final(self).wf(),
            match result {
                Ok(expr) => wording.unary_of(old(self).rest()) == Ok::<
                    (ExprModel, Seq<TokenModel>),
                    Seq<char>,
                >((expr.model(), final(self).rest())),
                Err(sentence) => wording.unary_of(old(self).rest()) == Err::<
                    (ExprModel, Seq<TokenModel>),
                    Seq<char>,
                >(sentence@),
            },
        decreases old(self).rest().len(), 1int,
    {
        match self.peek() {
            Some(Token::Not) => {
                self.advance();
                let inner = match self.unary(wording) {
                    Ok(inner) => inner,
                    Err(sentence) => {
                        return Err(sentence);
                    },
                };
                Ok(Expr::Not(Box::new(inner)))
            },
            Some(Token::LeftParen) => {
                self.advance();
                let inner = match self.expr(wording) {
                    Ok(inner) => inner,
                    Err(sentence) => {
                        return Err(sentence);
                    },
                };
                match self.peek() {
                    Some(Token::RightParen) => {
                        self.advance();
                        Ok(inner)
                    },
                    _ => Err("missing `)`".to_owned()),
                }
            },
            _ => self.comparison(wording),
        }
    }

    /// Operands of `and`.
    fn and<F: Fn(&str) -> Option<u64>, P: Fn(u64) -> String>(
        &mut self,
        wording: &Wording<F, P>,
    ) -> (result: Result<Expr, String>)
        requires
            old(self).wf(),
            wording.ok(),
        ensures
            final(self).wf(),
            match result {
                Ok(expr) => wording.and_of(old(self).rest()) == Ok::<
                    (ExprModel, Seq<TokenModel>),
                    Seq<char>,
                >((expr.model(), final(self).rest())),
                Err(sentence) => wording.and_of(old(self).rest()) == Err::<
                    (ExprModel, Seq<TokenModel>),
                    Seq<char>,
                >(sentence@),
            },
        decreases old(self).rest().len(), 3int,
    {
        let ghost start = self.rest();
        let mut left = match self.unary(wording) {
            Ok(left) => left,
            Err(sentence) => {
                return Err(sentence);
            },
        };
        proof {
            wording.lemma_unary_shrinks(start);
        }
        loop
            invariant
                self.wf(),
                wording.ok(),
                self.rest().len() < start.len(),
                start == old(self).rest(),
                wording.and_of(start) == wording.and_tail(left.model(), self.rest()),
            decreases self.rest().len(),
        {
            let ghost tokens = self.rest();
            match self.peek() {
                Some(Token::And) => {
                    self.advance();
                    proof {
                        wording.lemma_unary_shrinks(tokens.skip(1));
                    }
                    let right = match self.unary(wording) {
                        Ok(right) => right,
                        Err(sentence) => {
                            return Err(sentence);
                        },
                    };
                    left = Expr::And(Box::new(left), Box::new(right));
                },
                _ => {
                    return Ok(left);
                },
            }
        }
    }

    /// Operands of `or`.
    fn expr<F: Fn(&str) -> Option<u64>, P: Fn(u64) -> String>(
        &mut self,
        wording: &Wording<F, P>,
    ) -> (result: Result<Expr, String>)
        requires
            old(self).wf(),
            wording.ok(),
        ensures
            final(self).wf(),
            match result {
                Ok(expr) => wording.expr_of(old(self).rest()) == Ok::<
                    (ExprModel, Seq<TokenModel>),
                    Seq<char>,
                >((expr.model(), final(self).rest())),
                Err(sentence) => wording.expr_of(old(self).rest()) == Err::<
                    (ExprModel, Seq<TokenModel>),
                    Seq<char>,
                >(sentence@),
            },
        decreases old(self).rest().len(), 5int,
    {
        let ghost start = self.rest();
        let mut left = match self.and(wording) {
            Ok(left) => left,
            Err(sentence) => {
                return Err(sentence);
            },
        };
        proof {
            wording.lemma_and_shrinks(start);
        }
        loop
            invariant
                self.wf(),
                wording.ok(),
                self.rest().len() < start.len(),
                start == old(self).rest(),
                wording.expr_of(start) == wording.or_tail(left.model(), self.rest()),
            decreases self.rest().len(),
        {
            let ghost tokens = self.rest();
            match self.peek() {
                Some(Token::Or) => {
                    self.advance();
                    proof {
                        wording.lemma_and_shrinks(tokens.skip(1));
                    }
                    let right = match self.and(wording) {
                        Ok(right) => right,
                        Err(sentence) => {
                            return Err(sentence);
                        },
                    };
                    left = Expr::Or(Box::new(left), Box::new(right));
                },
                _ => {
                    return Ok(left);
                },
            }
        }
    }
}

impl Predicate {
    /// Parses `input`. Errors are one human sentence.
    pub fn parse<F: Fn(&str) -> Option<u64>, P: Fn(u64) -> String>(
        input: &str,
        wording: &Wording<F, P>,
    ) -> (result: Result<Predicate, String>)
        requires
            wording.ok(),
        ensures
            match result {
                Ok(predicate) => wording.predicate(input@) == Ok::<ExprModel, Seq<char>>(
                    predicate@,
                ),
                Err(sentence) => wording.predicate(input@) == Err::<ExprModel, Seq<char>>(
                    sentence@,
                ),
            },
    {
        let tokens = match wording.tokenize(input) {
            Ok(tokens) => tokens,
            Err(sentence) => {
                return Err(sentence);
            },
        };
        let mut parser = TokenReader::new(tokens);
        let root = match parser.expr(wording) {
            Ok(root) => root,
            Err(sentence) => {
                return Err(sentence);
            },
        };
        if let Some(token) = parser.peek() {
            let mut sentence = "unexpected `".to_owned();
            let ghost front = sentence@;
            let name = wording.name_of(token);
            push_text(&mut sentence, &name);
            sentence.push('`');
            assert(sentence@ =~= front + name@.push('`'));
            return Err(sentence);
        }
        Ok(Predicate { root })
    }
}

/// A field's resolved value for one run.
pub enum FieldValue {
    Number(u64),
    Text(String),
    Bool(bool),
    Missing,
}

/// What a field resolves to for one run.
#[verifier::ext_equal]
pub enum FieldModel {
    Number(u64),
    Text(Seq<char>),
    Truth(bool),
    /// Unknown field or the run has no such value. Every comparison on a
    /// missing value is false — absence never sneaks through a filter.
    Missing,
}

impl View for FieldValue {
    type V = FieldModel;

    open spec fn view(&self) -> FieldModel {
        match *self {
            FieldValue::Number(bits) => FieldModel::Number(bits),
            FieldValue::Text(text) => FieldModel::Text(text@),
            FieldValue::Bool(truth) => FieldModel::Truth(truth),
            FieldValue::Missing => FieldModel::Missing,
        }
    }
}

/// The last value of a series, where it is finite.
pub open spec fn last_of(series: Series) -> FieldModel {
    match last_point(series.summary.segments@) {
        Some(point) => if finite(point.value) {
            FieldModel::Number(point.value)
        } else {
            FieldModel::Missing
        },
        None => FieldModel::Missing,
    }
}

/// The place that a name resolves to: by exact name first, then by unique
/// `/`-suffix.
pub open spec fn resolved(names: Seq<Seq<char>>, wanted: Seq<char>) -> Option<usize> {
    choose|found: Option<usize>| resolves(names, wanted, found)
}

/// A name resolves to one place.
pub proof fn lemma_resolved(names: Seq<Seq<char>>, wanted: Seq<char>, found: Option<usize>)
    requires
        crate::names::in_order(names),
        resolves(names, wanted, found),
    ensures
        resolved(names, wanted) == found,
{
    let other = resolved(names, wanted);
    let suffix = seq!['/'] + wanted;
    if let (Some(a), Some(b)) = (found, other) {
        if names[a as int] == wanted && names[b as int] == wanted {
            crate::names::lemma_in_order_distinct(names, a as int, b as int);
        } else if a != b {
            assert(crate::run::only_suffix(names, suffix, a as int));
            assert(!crate::run::ends_with(names[b as int], suffix));
        }
    }
}

/// What a field resolves to for one run: the built-ins, then the
/// hyperparameters, then the series.
pub open spec fn field_of(field: Seq<char>, name: Seq<char>, status: Seq<char>, run: Run) -> FieldModel {
    if field == "run"@ || field == "name"@ {
        FieldModel::Text(name)
    } else if field == "status"@ {
        FieldModel::Text(status)
    } else if run.hparams.has(field) {
        match run.hparams.at(field) {
            HparamValue::F64(bits) => FieldModel::Number(bits),
            HparamValue::String(text) => FieldModel::Text(text@),
            HparamValue::Bool(truth) => FieldModel::Truth(truth),
        }
    } else {
        match resolved(run.series.names(), field) {
            Some(at) => last_of(run.series.values()[at as int]),
            None => FieldModel::Missing,
        }
    }
}

/// A boolean as text.
pub open spec fn truth_text(truth: bool) -> Seq<char> {
    if truth {
        "true"@
    } else {
        "false"@
    }
}

/// A boolean as text.
pub fn text_of_truth(truth: bool) -> (text: String)
    ensures
        text@ == truth_text(truth),
{
    if truth {
        "true".to_owned()
    } else {
        "false".to_owned()
    }
}

impl<F: Fn(&str) -> Option<u64>, P: Fn(u64) -> String> Wording<F, P> {
    /// The text form of a field, where it has a value.
    pub open spec fn field_text(self, field: FieldModel) -> Option<Seq<char>> {
        match field {
            FieldModel::Number(bits) => Some(self.written(bits)),
            FieldModel::Text(text) => Some(text),
            FieldModel::Truth(truth) => Some(truth_text(truth)),
            FieldModel::Missing => None,
        }
    }

    /// The text form of a literal.
    pub open spec fn literal_text(self, literal: LiteralModel) -> Seq<char> {
        match literal {
            LiteralModel::Number(bits) => self.written(bits),
            LiteralModel::Text(text) => text,
            LiteralModel::Truth(truth) => truth_text(truth),
        }
    }

    /// Whether a field with a value equals a literal: numbers and booleans by
    /// value, anything else by its text.
    pub open spec fn equals(self, field: FieldModel, literal: LiteralModel) -> bool {
        match (field, literal) {
            (FieldModel::Number(a), LiteralModel::Number(b)) => equal(a, b),
            (FieldModel::Truth(a), LiteralModel::Truth(b)) => a == b,
            _ => self.field_text(field) == Some(self.literal_text(literal)),
        }
    }

    /// Whether a comparison holds.
    pub open spec fn compares(self, field: FieldModel, op: Op, literal: LiteralModel) -> bool {
        match op {
            Op::Contains => match self.field_text(field) {
                Some(text) => within(text, self.literal_text(literal)),
                None => false,
            },
            Op::Eq => !(field is Missing) && self.equals(field, literal),
            Op::Ne => !(field is Missing) && !self.equals(field, literal),
            _ => match (field, literal) {
                (FieldModel::Number(a), LiteralModel::Number(b)) => match op {
                    Op::Gt => below(b, a),
                    Op::Ge => below(b, a) || equal(a, b),
                    Op::Lt => below(a, b),
                    _ => below(a, b) || equal(a, b),
                },
                _ => false,
            },
        }
    }

    /// Whether an expression holds of one run.
    pub open spec fn holds(
        self,
        expr: ExprModel,
        name: Seq<char>,
        status: Seq<char>,
        run: Run,
    ) -> bool
        decreases expr,
    {
        match expr {
            ExprModel::Or(a, b) => self.holds(*a, name, status, run) || self.holds(
                *b,
                name,
                status,
                run,
            ),
            ExprModel::And(a, b) => self.holds(*a, name, status, run) && self.holds(
                *b,
                name,
                status,
                run,
            ),
            ExprModel::Not(inner) => !self.holds(*inner, name, status, run),
            ExprModel::Compare { field, op, value } => self.compares(
                field_of(field, name, status, run),
                op,
                value,
            ),
        }
    }

    /// A comparison with a missing value never holds; a `not` around it does.
    pub proof fn law_missing_never_matches(
        self,
        field: Seq<char>,
        op: Op,
        value: LiteralModel,
        name: Seq<char>,
        status: Seq<char>,
        run: Run,
    )
        requires
            field_of(field, name, status, run) is Missing,
        ensures
            !self.holds(ExprModel::Compare { field, op, value }, name, status, run),
            self.holds(
                ExprModel::Not(Box::new(ExprModel::Compare { field, op, value })),
                name,
                status,
                run,
            ),
    {
        reveal_with_fuel(Wording::holds, 2);
    }

    /// The text form of a field, where it has a value.
    fn text_of_field(&self, field: &FieldValue) -> (text: Option<String>)
        requires
            self.ok(),
        ensures
            crate::mlflow::option_text(text) == self.field_text(field@),
    {
        match field {
            FieldValue::Number(bits) => Some(self.write(*bits)),
            FieldValue::Text(text) => Some(text.clone()),
            FieldValue::Bool(truth) => Some(text_of_truth(*truth)),
            FieldValue::Missing => None,
        }
    }

    /// The text form of a literal.
    fn text_of_literal(&self, literal: &Literal) -> (text: String)
        requires
            self.ok(),
        ensures
            text@ == self.literal_text(literal@),
    {
        match literal {
            Literal::Number(bits) => self.write(*bits),
            Literal::Text(text) => text.clone(),
            Literal::Bool(truth) => text_of_truth(*truth),
        }
    }

    /// Whether a field with a value equals a literal.
    fn is_same(&self, field: &FieldValue, literal: &Literal) -> (result: bool)
        requires
            self.ok(),
        ensures
            result == self.equals(field@, literal@),
    {
        match (field, literal) {
            (FieldValue::Number(a), Literal::Number(b)) => is_equal(*a, *b),
            (FieldValue::Bool(a), Literal::Bool(b)) => *a == *b,
            _ => match self.text_of_field(field) {
                Some(text) => same_text(&text, &self.text_of_literal(literal)),
                None => false,
            },
        }
    }

    /// Whether a comparison holds.
    fn compare(&self, field: &FieldValue, op: Op, literal: &Literal) -> (result: bool)
        requires
            self.ok(),
        ensures
            result == self.compares(field@, op, literal@),
    {
        match op {
            Op::Contains => match self.text_of_field(field) {
                Some(text) => contains_text(&text, &self.text_of_literal(literal)),
                None => false,
            },
            Op::Eq => match field {
                FieldValue::Missing => false,
                _ => self.is_same(field, literal),
            },
            Op::Ne => match field {
                FieldValue::Missing => false,
                _ => !self.is_same(field, literal),
            },
            _ => match (field, literal) {
                (FieldValue::Number(a), Literal::Number(b)) => match op {
                    Op::Gt => is_below(*b, *a),
                    Op::Ge => is_below(*b, *a) || is_equal(*a, *b),
                    Op::Lt => is_below(*a, *b),
                    _ => is_below(*a, *b) || is_equal(*a, *b),
                },
                _ => false,
            },
        }
    }

    /// Whether an expression holds of one run.
    fn eval(&self, expr: &Expr, name: &str, status: &str, run: &Run) -> (result: bool)
        requires
            self.ok(),
            run.wf(),
        ensures
            result == self.holds(expr.model(), name@, status@, *run),
        decreases *expr,
    {
        match expr {
            Expr::Or(a, b) => {
                let left = self.eval(a, name, status, run);
                let right = self.eval(b, name, status, run);
                left || right
            },
            Expr::And(a, b) => {
                let left = self.eval(a, name, status, run);
                let right = self.eval(b, name, status, run);
                left && right
            },
            Expr::Not(inner) => !self.eval(inner, name, status, run),
            Expr::Compare { field, op, value } => {
                let found = resolve(field, name, status, run);
                self.compare(&found, *op, value)
            },
        }
    }
}

/// The last value of a series, where it is finite.
fn last_value(series: &Series) -> (value: FieldValue)
    ensures
        value@ == last_of(*series),
{
    match series.summary.last() {
        Some(point) => if is_finite(point.value) {
            FieldValue::Number(point.value)
        } else {
            FieldValue::Missing
        },
        None => FieldValue::Missing,
    }
}

/// What a field resolves to for one run.
fn resolve(field: &str, name: &str, status: &str, run: &Run) -> (value: FieldValue)
    requires
        run.wf(),
    ensures
        value@ == field_of(field@, name@, status@, *run),
{
    if same_text(field, "run") || same_text(field, "name") {
        return FieldValue::Text(name.to_owned());
    }
    if same_text(field, "status") {
        return FieldValue::Text(status.to_owned());
    }
    if let Some(value) = run.hparams.get(field) {
        return match value {
            HparamValue::F64(bits) => FieldValue::Number(*bits),
            HparamValue::String(text) => FieldValue::Text(text.clone()),
            HparamValue::Bool(truth) => FieldValue::Bool(*truth),
        };
    }
    let found = resolve_name(&run.series, field);
    proof {
        lemma_resolved(run.series.names(), field@, found);
    }
    match found {
        Some(at) => last_value(run.series.value_at(at)),
        None => FieldValue::Missing,
    }
}

impl Predicate {
    /// Evaluates against one run. `status` is the caller's status word for
    /// the run (`active`/`idle`/`?` in vertov's UI).
    pub fn matches<F: Fn(&str) -> Option<u64>, P: Fn(u64) -> String>(
        &self,
        name: &str,
        status: &str,
        run: &Run,
        wording: &Wording<F, P>,
    ) -> (result: bool)
        requires
            wording.ok(),
            run.wf(),
        ensures
            result == wording.holds(self@, name@, status@, *run),
    {
        wording.eval(&self.root, name, status, run)
    }
}

} // verus!
