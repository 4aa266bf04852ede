#![verifier::loop_isolation(false)]
//! A JSON parser built from two verified stages: a lexer that turns the
//! input text into a sequence of tokens, and a recursive-descent parser
//! that turns the token sequence into a [`Value`] tree.
//!
//! Numbers are kept as their numeral text (the exact characters scanned
//! from the input), so that a caller may convert them to whatever numeric
//! representation it prefers.
use vstd::prelude::*;

pub mod parser;
pub mod text;
pub mod tokenizer;

use crate::parser::{parse_tokens, spec_parse_value, TokenParseError};
use crate::text::is_digit;
use crate::tokenizer::{is_numeral, lemma_tokenize_numeral, spec_tokenize, tokenize, TokenModel,
    TokenizeError};

verus! {

/// Representation of possible JSON values.
#[derive(Debug, PartialEq)]
pub enum Value {
    /// Literal 'null' value
    Null,
    /// Literal 'true' or 'false'
    Boolean(bool),
    /// Value within double quotes "...", with escapes decoded
    String(String),
    /// A number, kept as the numeral text it was written as
    Number(String),
    /// Zero or more JSON values
    Array(Vec<Value>),
    /// JSON values identified by String keys; keys are unique, and a later
    /// duplicate key overwrites the earlier entry in place
    Object(Vec<(String, Value)>),
}

/// The error of a whole parse: either stage's error, wrapped.
#[derive(Debug, PartialEq)]
pub enum ParseError {
    TokenizeError(TokenizeError),
    ParseError(TokenParseError),
}

impl From<TokenParseError> for ParseError {
    fn from(err: TokenParseError) -> Self {
        Self::ParseError(err)
    }
}

impl vstd::std_specs::convert::FromSpecImpl<TokenParseError> for ParseError {
    open spec fn obeys_from_spec() -> bool {
        true
    }

    open spec fn from_spec(err: TokenParseError) -> Self {
        ParseError::ParseError(err)
    }
}

impl From<TokenizeError> for ParseError {
    fn from(err: TokenizeError) -> Self {
        Self::TokenizeError(err)
    }
}

impl vstd::std_specs::convert::FromSpecImpl<TokenizeError> for ParseError {
    open spec fn obeys_from_spec() -> bool {
        true
    }

    open spec fn from_spec(err: TokenizeError) -> Self {
        ParseError::TokenizeError(err)
    }
}

/// Parses the input text into a value tree: tokenizes the whole input,
/// then parses one value from the token sequence, beginning at its start.
///
/// The result is exactly what the two stages' specifications,
/// [`spec_tokenize`] and [`spec_parse_value`], describe of the input's
/// characters. Tokens past the first value are left unread.
pub fn parse(input: String) -> (r: Result<Value, ParseError>)
    ensures
        ({
            match spec_tokenize(input@, 0) {
                Err(te) => r == Err::<Value, ParseError>(ParseError::TokenizeError(te)),
                Ok(toks) => match spec_parse_value(toks, 0) {
                    Err(pe) => r == Err::<Value, ParseError>(ParseError::ParseError(pe)),
                    Ok((vm, j)) => (r matches Ok(v) && v@ == vm),
                },
            }
        }),
{
    let tokens = match tokenize(input) {
        Ok(ts) => ts,
        Err(e) => {
            return Err(ParseError::TokenizeError(e));
        },
    };
    let mut index: usize = 0;
    let value = match parse_tokens(tokens.as_slice(), &mut index) {
        Ok(v) => v,
        Err(e) => {
            return Err(ParseError::ParseError(e));
        },
    };
    Ok(value)
}

/// A whole input that is one valid numeral tokenizes to exactly one
/// number token, and parsing that token sequence yields the number value
/// carrying the numeral's text, consuming the one token.
pub proof fn lemma_parse_numeral(chars: Seq<char>)
    requires
        chars.len() > 0,
        is_digit(chars[0]) || chars[0] == '-',
        is_numeral(chars),
    ensures
        spec_tokenize(chars, 0) == Ok::<Seq<TokenModel>, TokenizeError>(
            seq![TokenModel::Number(chars)],
        ),
        spec_parse_value(seq![TokenModel::Number(chars)], 0) == Ok::<
            (ValueModel, int),
            TokenParseError,
        >((ValueModel::Number(chars), 1)),
{
    lemma_tokenize_numeral(chars);
}

/// The mathematical model of a [`Value`]: the same tree, with every piece
/// of text abstracted to its sequence of characters.
pub enum ValueModel {
    Null,
    Boolean(bool),
    String(Seq<char>),
    Number(Seq<char>),
    Array(Seq<ValueModel>),
    Object(Seq<(Seq<char>, ValueModel)>),
}

/// The model of a value tree.
pub open spec fn value_model(v: Value) -> ValueModel
    decreases v,
{
    match v {
        Value::Null => ValueModel::Null,
        Value::Boolean(b) => ValueModel::Boolean(b),
        Value::String(s) => ValueModel::String(s@),
        Value::Number(n) => ValueModel::Number(n@),
        Value::Array(items) => ValueModel::Array(array_model(items@)),
        Value::Object(pairs) => ValueModel::Object(object_model(pairs@)),
    }
}

/// The model of a sequence of array elements.
pub open spec fn array_model(items: Seq<Value>) -> Seq<ValueModel>
    decreases items,
{
    if items.len() == 0 {
        Seq::empty()
    } else {
        seq![value_model(items[0])] + array_model(items.drop_first())
    }
}

/// The model of a sequence of object entries.
pub open spec fn object_model(pairs: Seq<(String, Value)>) -> Seq<(Seq<char>, ValueModel)>
    decreases pairs,
{
    if pairs.len() == 0 {
        Seq::empty()
    } else {
        seq![(pairs[0].0@, value_model(pairs[0].1))] + object_model(pairs.drop_first())
    }
}

impl View for Value {
    type V = ValueModel;

    open spec fn view(&self) -> ValueModel {
        value_model(*self)
    }
}

/// The model of an element sequence is the sequence of the elements'
/// models, index by index.
pub proof fn lemma_array_model_index(items: Seq<Value>)
    ensures
        array_model(items).len() == items.len(),
        forall|m: int|
            0 <= m < items.len() ==> #[trigger] array_model(items)[m] == value_model(items[m]),
    decreases items.len(),
{
    if items.len() > 0 {
        lemma_array_model_index(items.drop_first());
        assert forall|m: int|
            0 <= m < items.len() implies #[trigger] array_model(items)[m] == value_model(
            items[m],
        ) by {
            if m > 0 {
                assert(items.drop_first()[m - 1] == items[m]);
                assert(array_model(items)[m] == array_model(items.drop_first())[m - 1]);
            }
        }
    }
}

/// The model of an entry sequence is the sequence of the entries' models,
/// index by index.
pub proof fn lemma_object_model_index(pairs: Seq<(String, Value)>)
    ensures
        object_model(pairs).len() == pairs.len(),
        forall|m: int|
            0 <= m < pairs.len() ==> #[trigger] object_model(pairs)[m] == (
            pairs[m].0@,
            value_model(pairs[m].1),
            ),
    decreases pairs.len(),
{
    if pairs.len() > 0 {
        lemma_object_model_index(pairs.drop_first());
        assert forall|m: int|
            0 <= m < pairs.len() implies #[trigger] object_model(pairs)[m] == (
        pairs[m].0@,
        value_model(pairs[m].1),
        ) by {
            if m > 0 {
                assert(pairs.drop_first()[m - 1] == pairs[m]);
                assert(object_model(pairs)[m] == object_model(pairs.drop_first())[m - 1]);
            }
        }
    }
}

} // verus!

