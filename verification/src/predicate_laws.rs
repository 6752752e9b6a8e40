//! What a filter means: each operator compares the numbers that its two sides
//! are, texts read as they are spelled, and `not` binds tighter than `and`,
//! `and` tighter than `or`.
use vstd::prelude::*;

use crate::discover::within;
use crate::double::{finite, nan};
use crate::exact::{law_order_is_the_order_of_numbers, signed_units};
use crate::hparams::HparamValue;
use crate::numeric::Wording;
use crate::predicate::{
    field_of, last_of, literal_of, resolved, word_char, word_length, ExprModel, FieldModel, Lexeme,
    LiteralModel, Op, TokenModel,
};
use crate::run::Run;
use crate::text::{first_index, lemma_first_index};

verus! {

/// Within ASCII a word is made of letters, digits and the marks of paths and
/// numbers: slash, underscore, dot, minus and plus.
pub proof fn law_characters_of_words(c: char)
    requires
        (c as u32) < 0x80,
    ensures
        word_char(c) <==> 'a' <= c <= 'z' || 'A' <= c <= 'Z' || '0' <= c <= '9' || c == '/' || c
            == '_' || c == '.' || c == '-' || c == '+',
{
}

/// How an operator is spelled.
pub open spec fn spelled(op: Op) -> Seq<char> {
    match op {
        Op::Eq => "=="@,
        Op::Ne => "!="@,
        Op::Gt => ">"@,
        Op::Ge => ">="@,
        Op::Lt => "<"@,
        Op::Le => "<="@,
        Op::Contains => "~"@,
    }
}

/// A word that names a field: no keyword, and no number.
pub open spec fn names_field<F: Fn(&str) -> Option<u64>, P: Fn(u64) -> String>(
    wording: Wording<F, P>,
    word: Seq<char>,
) -> bool {
    &&& word.len() > 0
    &&& forall|i: int| 0 <= i < word.len() ==> word_char(#[trigger] word[i])
    &&& word != "and"@ && word != "or"@ && word != "not"@
    &&& wording.read(word) is None
}

/// A word that reads as a number.
pub open spec fn spells_number<F: Fn(&str) -> Option<u64>, P: Fn(u64) -> String>(
    wording: Wording<F, P>,
    word: Seq<char>,
    bits: u64,
) -> bool {
    &&& word.len() > 0
    &&& forall|i: int| 0 <= i < word.len() ==> word_char(#[trigger] word[i])
    &&& word != "and"@ && word != "or"@ && word != "not"@ && word != "true"@ && word != "false"@
    &&& wording.read(word) == Some(bits)
}

/// The tokens of a comparison.
pub open spec fn compared(field: Seq<char>, op: Op, value: TokenModel) -> Seq<TokenModel> {
    seq![TokenModel::Ident(field), TokenModel::Op(op), value]
}

/// A comparison.
pub open spec fn comparison(field: Seq<char>, op: Op, value: TokenModel) -> ExprModel {
    ExprModel::Compare { field, op, value: literal_of(value)->0 }
}

/// The word at the front is as long as its characters go.
proof fn lemma_word_length(word: Seq<char>, rest: Seq<char>)
    requires
        forall|i: int| 0 <= i < word.len() ==> word_char(#[trigger] word[i]),
        rest.len() > 0 ==> !word_char(rest[0]),
    ensures
        word_length(word + rest) == word.len(),
    decreases word.len(),
{
    let s = word + rest;
    if word.len() == 0 {
        assert(s =~= rest);
    } else {
        assert(s.skip(1) =~= word.skip(1) + rest);
        lemma_word_length(word.skip(1), rest);
        assert(word_char(s[0])) by {
            assert(s[0] == word[0]);
        }
    }
}

impl<F: Fn(&str) -> Option<u64>, P: Fn(u64) -> String> Wording<F, P> {
    /// On numbers the operators are the order of the numbers: `<` holds where
    /// the one is smaller, `>` where it is larger, `==` where they are the
    /// same, and the others where those do not.
    pub proof fn law_operators_follow_the_numbers(self, a: u64, b: u64)
        requires
            finite(a),
            finite(b),
        ensures
            ({
                let x = FieldModel::Number(a);
                let y = LiteralModel::Number(b);
                &&& self.compares(x, Op::Lt, y) == (signed_units(a) < signed_units(b))
                &&& self.compares(x, Op::Le, y) == (signed_units(a) <= signed_units(b))
                &&& self.compares(x, Op::Gt, y) == (signed_units(a) > signed_units(b))
                &&& self.compares(x, Op::Ge, y) == (signed_units(a) >= signed_units(b))
                &&& self.compares(x, Op::Eq, y) == (signed_units(a) == signed_units(b))
                &&& self.compares(x, Op::Ne, y) == (signed_units(a) != signed_units(b))
            }),
    {
        law_order_is_the_order_of_numbers(a, b);
        law_order_is_the_order_of_numbers(b, a);
    }

    /// For all that is a number, the infinities too: `>=` holds exactly where
    /// `<` does not, `<=` exactly where `>` does not, `>` exactly where `<`
    /// does the other way round, `!=` exactly where `==` does not, and of
    /// `<`, `==` and `>` exactly one holds.
    pub proof fn law_operators_complete_each_other(self, a: u64, b: u64)
        requires
            !nan(a),
            !nan(b),
        ensures
            ({
                let x = FieldModel::Number(a);
                let y = LiteralModel::Number(b);
                let holds = |op: Op| self.compares(x, op, y);
                &&& holds(Op::Ge) == !holds(Op::Lt)
                &&& holds(Op::Le) == !holds(Op::Gt)
                &&& holds(Op::Ne) == !holds(Op::Eq)
                &&& holds(Op::Gt) == self.compares(
                    FieldModel::Number(b),
                    Op::Lt,
                    LiteralModel::Number(a),
                )
                &&& holds(Op::Eq) == (holds(Op::Ge) && holds(Op::Le))
                &&& !(holds(Op::Lt) && holds(Op::Gt))
                &&& a == b ==> holds(Op::Eq)
                &&& a < 0x8000_0000_0000_0000 && b < 0x8000_0000_0000_0000 ==> holds(Op::Lt) == (a
                    < b)
            }),
    {
    }

    /// What is no number is only unequal.
    pub proof fn law_no_number_is_only_unequal(self, a: u64, b: u64)
        requires
            nan(a) || nan(b),
        ensures
            ({
                let x = FieldModel::Number(a);
                let y = LiteralModel::Number(b);
                &&& self.compares(x, Op::Ne, y)
                &&& !self.compares(x, Op::Eq, y)
                &&& !self.compares(x, Op::Lt, y)
                &&& !self.compares(x, Op::Le, y)
                &&& !self.compares(x, Op::Gt, y)
                &&& !self.compares(x, Op::Ge, y)
            }),
    {
    }

    /// A missing field meets no comparison at all.
    pub proof fn law_missing_field_meets_nothing(self, op: Op, literal: LiteralModel)
        ensures
            !self.compares(FieldModel::Missing, op, literal),
    {
    }

    /// Texts are equal where they are the same text, `!=` is the opposite, and
    /// no text stands in an order.
    pub proof fn law_texts_compare_as_texts(self, a: Seq<char>, b: Seq<char>)
        ensures
            ({
                let x = FieldModel::Text(a);
                let y = LiteralModel::Text(b);
                &&& self.compares(x, Op::Eq, y) == (a == b)
                &&& self.compares(x, Op::Ne, y) == (a != b)
                &&& !self.compares(x, Op::Lt, y)
                &&& !self.compares(x, Op::Le, y)
                &&& !self.compares(x, Op::Gt, y)
                &&& !self.compares(x, Op::Ge, y)
            }),
    {
    }

    /// Truths are equal where they are the same; a truth and a text where the
    /// text spells the truth; a number and a text where it spells the number.
    pub proof fn law_mixed_values_compare_by_their_spelling(
        self,
        truth: bool,
        other: bool,
        bits: u64,
        text: Seq<char>,
    )
        ensures
            self.compares(FieldModel::Truth(truth), Op::Eq, LiteralModel::Truth(other)) == (truth
                == other),
            self.compares(FieldModel::Truth(truth), Op::Ne, LiteralModel::Truth(other)) == (truth
                != other),
            self.compares(FieldModel::Truth(true), Op::Eq, LiteralModel::Text(text)) == (text
                == "true"@),
            self.compares(FieldModel::Truth(false), Op::Eq, LiteralModel::Text(text)) == (text
                == "false"@),
            self.compares(FieldModel::Text(text), Op::Eq, LiteralModel::Truth(true)) == (text
                == "true"@),
            self.compares(FieldModel::Text(text), Op::Eq, LiteralModel::Truth(false)) == (text
                == "false"@),
            self.compares(FieldModel::Number(bits), Op::Eq, LiteralModel::Text(text)) == (text
                == self.written(bits)),
            self.compares(FieldModel::Text(text), Op::Eq, LiteralModel::Number(bits)) == (text
                == self.written(bits)),
    {
    }

    /// `~` holds exactly where the field's text has the other one in it.
    pub proof fn law_contains_finds_a_part(
        self,
        front: Seq<char>,
        part: Seq<char>,
        back: Seq<char>,
        text: Seq<char>,
    )
        ensures
            self.compares(
                FieldModel::Text(front + part + back),
                Op::Contains,
                LiteralModel::Text(part),
            ),
            self.compares(FieldModel::Text(text), Op::Contains, LiteralModel::Text(part)) ==> exists|
                i: int|
                0 <= i <= text.len() - part.len() && #[trigger] text.subrange(i, i + part.len())
                    == part,
    {
        let whole = front + part + back;
        let i = front.len() as int;
        assert(whole.subrange(i, i + part.len()) =~= part);
        assert(within(whole, part));
    }

    /// Each operator is spelled as it is, whatever stands behind it; a lone
    /// `=` or `!` is refused.
    pub proof fn law_operators_are_spelled(self, op: Op, rest: Seq<char>)
        requires
            op == Op::Gt || op == Op::Lt ==> (rest.len() == 0 || rest[0] != '='),
        ensures
            self.lexeme(spelled(op) + rest) == Lexeme::Token(
                TokenModel::Op(op),
                spelled(op).len(),
            ),
            rest.len() == 0 || rest[0] != '=' ==> self.lexeme(seq!['='] + rest) is Wrong
                && self.lexeme(seq!['!'] + rest) is Wrong,
    {
        reveal_strlit("==");
        reveal_strlit("!=");
        reveal_strlit(">");
        reveal_strlit(">=");
        reveal_strlit("<");
        reveal_strlit("<=");
        reveal_strlit("~");
    }

    /// Brackets are brackets, blanks are skipped, and what stands between two
    /// equal quotes is a text.
    pub proof fn law_brackets_and_quotes(self, inner: Seq<char>, quote: char, rest: Seq<char>)
        requires
            quote == '\'' || quote == '"',
            !inner.contains(quote),
        ensures
            self.lexeme(seq!['('] + rest) == Lexeme::Token(TokenModel::LeftParen, 1),
            self.lexeme(seq![')'] + rest) == Lexeme::Token(TokenModel::RightParen, 1),
            self.lexeme(seq![' '] + rest) is Blank,
            self.lexeme(seq!['\t'] + rest) is Blank,
            self.lexeme(seq![quote] + inner + seq![quote] + rest) == Lexeme::Token(
                TokenModel::Text(inner),
                inner.len() + 2,
            ),
            self.lexeme(seq![quote] + inner) is Wrong,
    {
        let s = seq![quote] + inner + seq![quote] + rest;
        let behind = s.skip(1);
        assert(behind =~= inner + seq![quote] + rest);
        lemma_first_index(behind, quote);
        let n = inner.len() as int;
        assert(behind[n] == quote);
        assert(behind.contains(quote));
        let i = first_index(behind, quote)->0;
        if i < n {
            assert(behind[i] == inner[i]);
            assert(inner.contains(inner[i]));
        }
        assert(behind.take(n) =~= inner);
        let open = seq![quote] + inner;
        assert(open.skip(1) =~= inner);
        lemma_first_index(inner, quote);
    }

    /// A word of letters, digits and `/ _ . - +` is one token: a keyword, a
    /// number, or a name.
    pub proof fn law_words_are_read(self, word: Seq<char>, rest: Seq<char>)
        requires
            word.len() > 0,
            forall|i: int| 0 <= i < word.len() ==> word_char(#[trigger] word[i]),
            rest.len() > 0 ==> !word_char(rest[0]),
        ensures
            ({
                let token = if word == "and"@ {
                    TokenModel::And
                } else if word == "or"@ {
                    TokenModel::Or
                } else if word == "not"@ {
                    TokenModel::Not
                } else if word != "true"@ && word != "false"@ && self.read(word) is Some {
                    TokenModel::Number(self.read(word)->0)
                } else {
                    TokenModel::Ident(word)
                };
                self.lexeme(word + rest) == Lexeme::Token(token, word.len())
            }),
    {
        lemma_word_length(word, rest);
        let s = word + rest;
        assert(s[0] == word[0]);
        assert(word_char(word[0]));
        assert(s.take(word.len() as int) =~= word);
    }

    /// A comparison of a field with a number reads as that, whatever the
    /// operator.
    pub proof fn law_comparison_reads_back(
        self,
        field: Seq<char>,
        op: Op,
        number: Seq<char>,
        bits: u64,
    )
        requires
            names_field(self, field),
            spells_number(self, number, bits),
        ensures
            self.predicate(field + spelled(op) + number) == Ok::<ExprModel, Seq<char>>(
                ExprModel::Compare { field, op, value: LiteralModel::Number(bits) },
            ),
    {
        reveal_strlit("==");
        reveal_strlit("!=");
        reveal_strlit(">");
        reveal_strlit(">=");
        reveal_strlit("<");
        reveal_strlit("<=");
        reveal_strlit("~");
        let s = field + spelled(op) + number;
        let t = spelled(op) + number;
        let nothing = Seq::<char>::empty();
        assert(s =~= field + t);
        assert(t[0] == spelled(op)[0]);
        assert(!word_char(t[0]));
        self.law_words_are_read(field, t);
        assert(s.skip(field.len() as int) =~= t);
        assert(word_char(number[0]));
        self.law_operators_are_spelled(op, number);
        assert(t.skip(spelled(op).len() as int) =~= number);
        self.law_words_are_read(number, nothing);
        assert(number + nothing =~= number);
        assert(number.skip(number.len() as int) =~= nothing);
        assert(self.tokens(nothing) == Ok::<Seq<TokenModel>, Seq<char>>(Seq::empty()));
        let value = TokenModel::Number(bits);
        assert(self.tokens(number) == Ok::<Seq<TokenModel>, Seq<char>>(seq![value])) by {
            assert(seq![value] + Seq::<TokenModel>::empty() =~= seq![value]);
        }
        assert(self.tokens(t) == Ok::<Seq<TokenModel>, Seq<char>>(
            seq![TokenModel::Op(op)] + seq![value],
        ));
        let tokens = compared(field, op, value);
        assert(self.tokens(s) == Ok::<Seq<TokenModel>, Seq<char>>(tokens)) by {
            assert(seq![TokenModel::Ident(field)] + (seq![TokenModel::Op(op)] + seq![value])
                =~= tokens);
        }
        self.lemma_unary(field, op, value, Seq::empty());
        assert(tokens + Seq::<TokenModel>::empty() =~= tokens);
    }

    proof fn lemma_unary(
        self,
        field: Seq<char>,
        op: Op,
        value: TokenModel,
        rest: Seq<TokenModel>,
    )
        requires
            literal_of(value) is Some,
        ensures
            self.unary_of(compared(field, op, value) + rest) == Ok::<
                (ExprModel, Seq<TokenModel>),
                Seq<char>,
            >((comparison(field, op, value), rest)),
    {
        let tokens = compared(field, op, value) + rest;
        assert(tokens[0] == TokenModel::Ident(field));
        assert(tokens[1] == TokenModel::Op(op));
        assert(tokens[2] == value);
        assert(tokens.skip(3) =~= rest);
    }

    /// `and` binds tighter than `or`, on either side.
    pub proof fn law_and_binds_tighter_than_or(
        self,
        f: Seq<char>,
        g: Seq<char>,
        h: Seq<char>,
        op: Op,
        u: TokenModel,
        v: TokenModel,
        w: TokenModel,
    )
        requires
            literal_of(u) is Some,
            literal_of(v) is Some,
            literal_of(w) is Some,
        ensures
            ({
                let a = compared(f, op, u);
                let b = compared(g, op, v);
                let c = compared(h, op, w);
                let x = Box::new(comparison(f, op, u));
                let y = Box::new(comparison(g, op, v));
                let z = Box::new(comparison(h, op, w));
                let both = seq![TokenModel::And];
                let either = seq![TokenModel::Or];
                let end = Seq::<TokenModel>::empty();
                &&& self.expr_of(a + either + b + both + c) == Ok::<
                    (ExprModel, Seq<TokenModel>),
                    Seq<char>,
                >((ExprModel::Or(x, Box::new(ExprModel::And(y, z))), end))
                &&& self.expr_of(a + both + b + either + c) == Ok::<
                    (ExprModel, Seq<TokenModel>),
                    Seq<char>,
                >((ExprModel::Or(Box::new(ExprModel::And(x, y)), z), end))
                &&& self.expr_of(seq![TokenModel::Not] + a + both + b) == Ok::<
                    (ExprModel, Seq<TokenModel>),
                    Seq<char>,
                >((ExprModel::And(Box::new(ExprModel::Not(x)), y), end))
                &&& self.expr_of(
                    seq![TokenModel::LeftParen] + a + either + b + seq![TokenModel::RightParen]
                        + both + c,
                ) == Ok::<(ExprModel, Seq<TokenModel>), Seq<char>>(
                    (ExprModel::And(Box::new(ExprModel::Or(x, y)), z), end),
                )
            }),
    {
        let a = compared(f, op, u);
        let b = compared(g, op, v);
        let c = compared(h, op, w);
        let x = comparison(f, op, u);
        let y = comparison(g, op, v);
        let z = comparison(h, op, w);
        let both = seq![TokenModel::And];
        let either = seq![TokenModel::Or];
        let end = Seq::<TokenModel>::empty();
        self.lemma_or_and(f, g, h, op, u, v, w);
        self.lemma_and_or(f, g, h, op, u, v, w);
        self.lemma_not_and(f, g, op, u, v);
        self.lemma_bracketed(f, g, h, op, u, v, w);
    }

    proof fn lemma_or_and(
        self,
        f: Seq<char>,
        g: Seq<char>,
        h: Seq<char>,
        op: Op,
        u: TokenModel,
        v: TokenModel,
        w: TokenModel,
    )
        requires
            literal_of(u) is Some,
            literal_of(v) is Some,
            literal_of(w) is Some,
        ensures
            self.expr_of(
                compared(f, op, u) + seq![TokenModel::Or] + compared(g, op, v)
                    + seq![TokenModel::And] + compared(h, op, w),
            ) == Ok::<(ExprModel, Seq<TokenModel>), Seq<char>>(
                (
                    ExprModel::Or(
                        Box::new(comparison(f, op, u)),
                        Box::new(
                            ExprModel::And(
                                Box::new(comparison(g, op, v)),
                                Box::new(comparison(h, op, w)),
                            ),
                        ),
                    ),
                    Seq::empty(),
                ),
            ),
    {
        reveal_with_fuel(Wording::and_tail, 3);
        reveal_with_fuel(Wording::or_tail, 3);
        let a = compared(f, op, u);
        let b = compared(g, op, v);
        let c = compared(h, op, w);
        let end = Seq::<TokenModel>::empty();
        let third = seq![TokenModel::And] + c;
        let second = seq![TokenModel::Or] + b + third;
        let all = a + seq![TokenModel::Or] + b + seq![TokenModel::And] + c;
        assert(all =~= a + second);
        assert(second.skip(1) =~= b + third);
        assert(third.skip(1) =~= c + end);
        self.lemma_unary(f, op, u, second);
        self.lemma_unary(g, op, v, third);
        self.lemma_unary(h, op, w, end);
        let x = comparison(f, op, u);
        let y = comparison(g, op, v);
        let z = comparison(h, op, w);
        let inner = ExprModel::And(Box::new(y), Box::new(z));
        assert(third[0] is And && second[0] is Or);
        assert(self.and_tail(inner, end) == Ok::<(ExprModel, Seq<TokenModel>), Seq<char>>((inner, end)));
        assert(self.and_tail(y, third) == Ok::<(ExprModel, Seq<TokenModel>), Seq<char>>((inner, end)));
        assert(self.and_of(b + third) == Ok::<(ExprModel, Seq<TokenModel>), Seq<char>>((inner, end)));
        assert(self.and_tail(x, second) == Ok::<(ExprModel, Seq<TokenModel>), Seq<char>>((x, second)));
        assert(self.and_of(all) == Ok::<(ExprModel, Seq<TokenModel>), Seq<char>>((x, second)));
        let whole = ExprModel::Or(Box::new(x), Box::new(inner));
        assert(self.or_tail(whole, end) == Ok::<(ExprModel, Seq<TokenModel>), Seq<char>>((whole, end)));
        assert(self.or_tail(x, second) == Ok::<(ExprModel, Seq<TokenModel>), Seq<char>>((whole, end)));
    }

    proof fn lemma_and_or(
        self,
        f: Seq<char>,
        g: Seq<char>,
        h: Seq<char>,
        op: Op,
        u: TokenModel,
        v: TokenModel,
        w: TokenModel,
    )
        requires
            literal_of(u) is Some,
            literal_of(v) is Some,
            literal_of(w) is Some,
        ensures
            self.expr_of(
                compared(f, op, u) + seq![TokenModel::And] + compared(g, op, v)
                    + seq![TokenModel::Or] + compared(h, op, w),
            ) == Ok::<(ExprModel, Seq<TokenModel>), Seq<char>>(
                (
                    ExprModel::Or(
                        Box::new(
                            ExprModel::And(
                                Box::new(comparison(f, op, u)),
                                Box::new(comparison(g, op, v)),
                            ),
                        ),
                        Box::new(comparison(h, op, w)),
                    ),
                    Seq::empty(),
                ),
            ),
    {
        reveal_with_fuel(Wording::and_tail, 3);
        reveal_with_fuel(Wording::or_tail, 3);
        let a = compared(f, op, u);
        let b = compared(g, op, v);
        let c = compared(h, op, w);
        let end = Seq::<TokenModel>::empty();
        let third = seq![TokenModel::Or] + c;
        let second = seq![TokenModel::And] + b + third;
        let all = a + seq![TokenModel::And] + b + seq![TokenModel::Or] + c;
        assert(all =~= a + second);
        assert(second.skip(1) =~= b + third);
        assert(third.skip(1) =~= c + end);
        self.lemma_unary(f, op, u, second);
        self.lemma_unary(g, op, v, third);
        self.lemma_unary(h, op, w, end);
        let x = comparison(f, op, u);
        let y = comparison(g, op, v);
        let z = comparison(h, op, w);
        let inner = ExprModel::And(Box::new(x), Box::new(y));
        assert(third[0] is Or && second[0] is And);
        assert(self.and_tail(inner, third) == Ok::<(ExprModel, Seq<TokenModel>), Seq<char>>((inner, third)));
        assert(self.and_tail(x, second) == Ok::<(ExprModel, Seq<TokenModel>), Seq<char>>((inner, third)));
        assert(self.and_of(all) == Ok::<(ExprModel, Seq<TokenModel>), Seq<char>>((inner, third)));
        assert(self.and_tail(z, end) == Ok::<(ExprModel, Seq<TokenModel>), Seq<char>>((z, end)));
        assert(self.and_of(c + end) == Ok::<(ExprModel, Seq<TokenModel>), Seq<char>>((z, end)));
        let whole = ExprModel::Or(Box::new(inner), Box::new(z));
        assert(self.or_tail(whole, end) == Ok::<(ExprModel, Seq<TokenModel>), Seq<char>>((whole, end)));
        assert(self.or_tail(inner, third) == Ok::<(ExprModel, Seq<TokenModel>), Seq<char>>((whole, end)));
    }

    proof fn lemma_not_and(
        self,
        f: Seq<char>,
        g: Seq<char>,
        op: Op,
        u: TokenModel,
        v: TokenModel,
    )
        requires
            literal_of(u) is Some,
            literal_of(v) is Some,
        ensures
            self.expr_of(
                seq![TokenModel::Not] + compared(f, op, u) + seq![TokenModel::And] + compared(
                    g,
                    op,
                    v,
                ),
            ) == Ok::<(ExprModel, Seq<TokenModel>), Seq<char>>(
                (
                    ExprModel::And(
                        Box::new(ExprModel::Not(Box::new(comparison(f, op, u)))),
                        Box::new(comparison(g, op, v)),
                    ),
                    Seq::empty(),
                ),
            ),
    {
        reveal_with_fuel(Wording::and_tail, 3);
        reveal_with_fuel(Wording::or_tail, 2);
        reveal_with_fuel(Wording::unary_of, 2);
        let a = compared(f, op, u);
        let b = compared(g, op, v);
        let end = Seq::<TokenModel>::empty();
        let second = seq![TokenModel::And] + b;
        let all = seq![TokenModel::Not] + a + seq![TokenModel::And] + b;
        assert(all[0] is Not);
        assert(all.skip(1) =~= a + second);
        assert(second.skip(1) =~= b + end);
        self.lemma_unary(f, op, u, second);
        self.lemma_unary(g, op, v, end);
        let x = ExprModel::Not(Box::new(comparison(f, op, u)));
        let y = comparison(g, op, v);
        let inner = ExprModel::And(Box::new(x), Box::new(y));
        assert(second[0] is And);
        assert(self.unary_of(all) == Ok::<(ExprModel, Seq<TokenModel>), Seq<char>>((x, second)));
        assert(self.and_tail(inner, end) == Ok::<(ExprModel, Seq<TokenModel>), Seq<char>>((inner, end)));
        assert(self.and_tail(x, second) == Ok::<(ExprModel, Seq<TokenModel>), Seq<char>>((inner, end)));
        assert(self.and_of(all) == Ok::<(ExprModel, Seq<TokenModel>), Seq<char>>((inner, end)));
        assert(self.or_tail(inner, end) == Ok::<(ExprModel, Seq<TokenModel>), Seq<char>>((inner, end)));
    }

    proof fn lemma_bracketed(
        self,
        f: Seq<char>,
        g: Seq<char>,
        h: Seq<char>,
        op: Op,
        u: TokenModel,
        v: TokenModel,
        w: TokenModel,
    )
        requires
            literal_of(u) is Some,
            literal_of(v) is Some,
            literal_of(w) is Some,
        ensures
            self.expr_of(
                seq![TokenModel::LeftParen] + compared(f, op, u) + seq![TokenModel::Or]
                    + compared(g, op, v) + seq![TokenModel::RightParen] + seq![TokenModel::And]
                    + compared(h, op, w),
            ) == Ok::<(ExprModel, Seq<TokenModel>), Seq<char>>(
                (
                    ExprModel::And(
                        Box::new(
                            ExprModel::Or(
                                Box::new(comparison(f, op, u)),
                                Box::new(comparison(g, op, v)),
                            ),
                        ),
                        Box::new(comparison(h, op, w)),
                    ),
                    Seq::empty(),
                ),
            ),
    {
        reveal_with_fuel(Wording::and_tail, 3);
        reveal_with_fuel(Wording::or_tail, 3);
        reveal_with_fuel(Wording::unary_of, 2);
        reveal_with_fuel(Wording::expr_of, 2);
        reveal_with_fuel(Wording::and_of, 2);
        let a = compared(f, op, u);
        let b = compared(g, op, v);
        let c = compared(h, op, w);
        let end = Seq::<TokenModel>::empty();
        let fourth = seq![TokenModel::And] + c;
        let third = seq![TokenModel::RightParen] + fourth;
        let second = seq![TokenModel::Or] + b + third;
        let all = seq![TokenModel::LeftParen] + a + seq![TokenModel::Or] + b
            + seq![TokenModel::RightParen] + seq![TokenModel::And] + c;
        assert(all[0] is LeftParen);
        assert(all.skip(1) =~= a + second);
        assert(second.skip(1) =~= b + third);
        assert(third.skip(1) =~= fourth);
        assert(fourth.skip(1) =~= c + end);
        self.lemma_unary(f, op, u, second);
        self.lemma_unary(g, op, v, third);
        self.lemma_unary(h, op, w, end);
        let inner = ExprModel::Or(Box::new(comparison(f, op, u)), Box::new(comparison(g, op, v)));
        assert(self.expr_of(a + second) == Ok::<(ExprModel, Seq<TokenModel>), Seq<char>>(
            (inner, third),
        ));
        assert(self.unary_of(all) == Ok::<(ExprModel, Seq<TokenModel>), Seq<char>>(
            (inner, fourth),
        ));
    }

    /// `not` holds where its operand does not, `and` where both do, `or`
    /// where one does.
    pub proof fn law_connectives(
        self,
        a: ExprModel,
        b: ExprModel,
        name: Seq<char>,
        status: Seq<char>,
        run: Run,
    )
        ensures
            ({
                let holds = |e: ExprModel| self.holds(e, name, status, run);
                &&& holds(ExprModel::Not(Box::new(a))) <==> !holds(a)
                &&& holds(ExprModel::And(Box::new(a), Box::new(b))) <==> (holds(a) && holds(b))
                &&& holds(ExprModel::Or(Box::new(a), Box::new(b))) <==> (holds(a) || holds(b))
            }),
    {
        reveal_with_fuel(Wording::holds, 2);
    }
}

/// The words `true` and `false` are truths, other words texts, numbers
/// numbers; nothing else is a value.
pub proof fn law_literals_are_read(bits: u64, word: Seq<char>)
    ensures
        literal_of(TokenModel::Number(bits)) == Some(LiteralModel::Number(bits)),
        literal_of(TokenModel::Text(word)) == Some(LiteralModel::Text(word)),
        literal_of(TokenModel::Ident("true"@)) == Some(LiteralModel::Truth(true)),
        literal_of(TokenModel::Ident("false"@)) == Some(LiteralModel::Truth(false)),
        word != "true"@ && word != "false"@ ==> literal_of(TokenModel::Ident(word)) == Some(
            LiteralModel::Text(word),
        ),
        literal_of(TokenModel::And) is None,
        literal_of(TokenModel::LeftParen) is None,
{
    reveal_strlit("true");
    reveal_strlit("false");
    assert("true"@.len() == 4 && "false"@.len() == 5);
}

/// `run` and `name` are the run's name and `status` its status; any other
/// field is the hyperparameter of that name, and where there is none the
/// last value of the series that it resolves to.
pub proof fn law_fields_resolve(field: Seq<char>, name: Seq<char>, status: Seq<char>, run: Run)
    requires
        run.wf(),
    ensures
        field == "run"@ || field == "name"@ ==> field_of(field, name, status, run)
            == FieldModel::Text(name),
        field == "status"@ ==> field_of(field, name, status, run) == FieldModel::Text(status),
        field != "run"@ && field != "name"@ && field != "status"@ ==> ({
            let found = field_of(field, name, status, run);
            &&& run.hparams.has(field) ==> match run.hparams.at(field) {
                HparamValue::F64(bits) => found == FieldModel::Number(bits),
                HparamValue::String(text) => found == FieldModel::Text(text@),
                HparamValue::Bool(truth) => found == FieldModel::Truth(truth),
            }
            &&& !run.hparams.has(field) ==> match resolved(run.series.names(), field) {
                Some(at) => found == last_of(run.series.values()[at as int]),
                None => found is Missing,
            }
        }),
{
    reveal_strlit("run");
    reveal_strlit("name");
    reveal_strlit("status");
    assert("run"@.len() == 3 && "name"@.len() == 4 && "status"@.len() == 6);
}

} // verus!
