//! The parser: consumes the token sequence through a shared cursor,
//! recursively building one [`Value`] tree, and owns string-escape
//! decoding, which is shared by object keys and string values.
//!
//! The meaning of parsing is given by [`spec_parse_value`], and of escape
//! decoding by [`spec_unescape`]; the executable functions return exactly
//! what those describe.
use vstd::prelude::*;

use crate::text::{char_from_u32, chars_of, chars_to_string, hex_char_value, hex_digit_value,
    is_hex_digit};
use crate::tokenizer::{tokens_model, Token, TokenModel};
use crate::{array_model, lemma_array_model_index, lemma_object_model_index, object_model,
    value_model, Value, ValueModel};

verus! {

/// Possible errors that can occur when parsing the token sequence.
#[derive(Debug, PartialEq)]
pub enum TokenParseError {
    /// An escape sequence was started without 4 hexadecimal digits afterwards
    UnfinishedEscape,
    /// A character in an escape sequence was not valid hexadecimal
    InvalidHexValue,
    /// Invalid unicode value
    InvalidCodePointValue,
    /// Value was expected but not found
    ExpectedValue,
    /// Property name was expected but not found
    ExpectedProperty,
    /// Comma was expected but not found
    ExpectedComma,
    /// Colon was expected but not found
    ExpectedColon,
    /// Trailing comma found
    TrailingComma,
}

/// What a backslash followed by `c` decodes to. The eight simple escapes
/// decode to their control or punctuation characters; a backslash before
/// any other character yields that character unchanged.
///
/// Note that `\f` decodes to U+0012 here, not to the conventional form
/// feed U+000C.
pub open spec fn simple_escape(c: char) -> char {
    if c == '\\' {
        '\\'
    } else if c == '"' {
        '"'
    } else if c == 'n' {
        '\n'
    } else if c == 'r' {
        '\r'
    } else if c == 't' {
        '\t'
    } else if c == 'b' {
        '\u{8}'
    } else if c == 'f' {
        '\u{12}'
    } else {
        c
    }
}

/// The value of the four hexadecimal digits at positions `i..i+4` of `s`,
/// combined big-endian; `UnfinishedEscape` when `s` ends before four
/// digits were read, `InvalidHexValue` when a character read is not a
/// hexadecimal digit.
pub open spec fn hex_quad_value(s: Seq<char>, i: int) -> Result<u32, TokenParseError> {
    if i >= s.len() {
        Err(TokenParseError::UnfinishedEscape)
    } else if !is_hex_digit(s[i]) {
        Err(TokenParseError::InvalidHexValue)
    } else if i + 1 >= s.len() {
        Err(TokenParseError::UnfinishedEscape)
    } else if !is_hex_digit(s[i + 1]) {
        Err(TokenParseError::InvalidHexValue)
    } else if i + 2 >= s.len() {
        Err(TokenParseError::UnfinishedEscape)
    } else if !is_hex_digit(s[i + 2]) {
        Err(TokenParseError::InvalidHexValue)
    } else if i + 3 >= s.len() {
        Err(TokenParseError::UnfinishedEscape)
    } else if !is_hex_digit(s[i + 3]) {
        Err(TokenParseError::InvalidHexValue)
    } else {
        Ok(
            (4096 * hex_digit_value(s[i]) + 256 * hex_digit_value(s[i + 1]) + 16 * hex_digit_value(
                s[i + 2],
            ) + hex_digit_value(s[i + 3])) as u32,
        )
    }
}

/// When the four digits are read in full, they all stand inside `s`.
pub proof fn lemma_hex_quad_bound(s: Seq<char>, i: int)
    ensures
        hex_quad_value(s, i) is Ok ==> i + 4 <= s.len(),
{
}

/// What decoding the raw text `raw` from position `i` onward yields.
///
/// Outside an escape, characters pass through unchanged and a backslash
/// starts an escape. A backslash that ends the text is dropped. `\uXXXX`
/// reads exactly four hexadecimal digits, combines them big-endian and
/// yields the character with that scalar value; every other escaped
/// character decodes by [`simple_escape`].
pub open spec fn spec_unescape_from(raw: Seq<char>, i: int) -> Result<Seq<char>, TokenParseError>
    decreases raw.len() - i,
{
    if i < 0 || i >= raw.len() {
        Ok(Seq::empty())
    } else if raw[i] != '\\' {
        match spec_unescape_from(raw, i + 1) {
            Ok(rest) => Ok(seq![raw[i]] + rest),
            Err(e) => Err(e),
        }
    } else if i + 1 >= raw.len() {
        Ok(Seq::empty())
    } else if raw[i + 1] == 'u' {
        match hex_quad_value(raw, i + 2) {
            Err(e) => Err(e),
            Ok(v) => {
                if v < 0xD800 || v >= 0xE000 {
                    proof {
                        lemma_hex_quad_bound(raw, i + 2);
                    }
                    match spec_unescape_from(raw, i + 6) {
                        Ok(rest) => Ok(seq![v as char] + rest),
                        Err(e) => Err(e),
                    }
                } else {
                    Err(TokenParseError::InvalidCodePointValue)
                }
            },
        }
    } else {
        match spec_unescape_from(raw, i + 2) {
            Ok(rest) => Ok(seq![simple_escape(raw[i + 1])] + rest),
            Err(e) => Err(e),
        }
    }
}

/// What decoding the raw text of a string token yields.
pub open spec fn spec_unescape(raw: Seq<char>) -> Result<Seq<char>, TokenParseError> {
    spec_unescape_from(raw, 0)
}

/// `pairs` with `key` bound to `v`: when `key` is already present, its
/// entry is overwritten in place; otherwise the pair is appended.
pub open spec fn obj_insert(
    pairs: Seq<(Seq<char>, ValueModel)>,
    key: Seq<char>,
    v: ValueModel,
) -> Seq<(Seq<char>, ValueModel)>
    decreases pairs.len(),
{
    if pairs.len() == 0 {
        seq![(key, v)]
    } else if pairs[0].0 == key {
        seq![(key, v)] + pairs.drop_first()
    } else {
        seq![pairs[0]] + obj_insert(pairs.drop_first(), key, v)
    }
}

/// What parsing one value at cursor position `i` yields: the value's model
/// and the position one past the last token it consumed, or the first
/// error. A position at or past the end of the tokens, where a value was
/// expected, is `ExpectedValue`.
pub open spec fn spec_parse_value(tokens: Seq<TokenModel>, i: int) -> Result<
    (ValueModel, int),
    TokenParseError,
>
    decreases tokens.len() - i, 0int,
{
    if i < 0 || i >= tokens.len() {
        Err(TokenParseError::ExpectedValue)
    } else {
        match tokens[i] {
            TokenModel::Null => Ok((ValueModel::Null, i + 1)),
            TokenModel::False => Ok((ValueModel::Boolean(false), i + 1)),
            TokenModel::True => Ok((ValueModel::Boolean(true), i + 1)),
            TokenModel::Number(t) => Ok((ValueModel::Number(t), i + 1)),
            TokenModel::String(raw) => match spec_unescape(raw) {
                Ok(s) => Ok((ValueModel::String(s), i + 1)),
                Err(e) => Err(e),
            },
            TokenModel::LeftBracket => match spec_parse_array_items(tokens, i + 1, Seq::empty()) {
                Ok((items, j)) => Ok((ValueModel::Array(items), j)),
                Err(e) => Err(e),
            },
            TokenModel::LeftBrace => match spec_parse_object_items(tokens, i + 1, Seq::empty()) {
                Ok((pairs, j)) => Ok((ValueModel::Object(pairs), j)),
                Err(e) => Err(e),
            },
            _ => Err(TokenParseError::ExpectedValue),
        }
    }
}

/// What parsing the rest of an array yields, with cursor position `i` on
/// an element or on the closing bracket, and `acc` the elements collected
/// so far: the elements and the position one past the closing bracket, or
/// the first error. A closing bracket directly after a comma is accepted,
/// so a trailing comma is tolerated.
pub open spec fn spec_parse_array_items(
    tokens: Seq<TokenModel>,
    i: int,
    acc: Seq<ValueModel>,
) -> Result<(Seq<ValueModel>, int), TokenParseError>
    decreases tokens.len() - i, 1int,
{
    if i < 0 || i >= tokens.len() {
        Err(TokenParseError::ExpectedValue)
    } else if tokens[i] is RightBracket {
        Ok((acc, i + 1))
    } else {
        match spec_parse_value(tokens, i) {
            Err(e) => Err(e),
            Ok((v, j)) => {
                if j <= i || j > tokens.len() {
                    // never reached: a parsed value always advances the
                    // cursor and stays inside the tokens
                    Err(TokenParseError::ExpectedValue)
                } else if j == tokens.len() {
                    Err(TokenParseError::ExpectedComma)
                } else if tokens[j] is Comma {
                    spec_parse_array_items(tokens, j + 1, acc.push(v))
                } else if tokens[j] is RightBracket {
                    Ok((acc.push(v), j + 1))
                } else {
                    Err(TokenParseError::ExpectedComma)
                }
            },
        }
    }
}

/// What parsing the rest of an object yields, with cursor position `i` on
/// a property or on the closing brace, and `acc` the pairs collected so
/// far: the pairs and the position one past the closing brace, or the
/// first error. A closing brace directly after a comma is accepted; a
/// property whose name is not followed by a colon is skipped without an
/// error when a comma or the closing brace follows the name directly.
pub open spec fn spec_parse_object_items(
    tokens: Seq<TokenModel>,
    i: int,
    acc: Seq<(Seq<char>, ValueModel)>,
) -> Result<(Seq<(Seq<char>, ValueModel)>, int), TokenParseError>
    decreases tokens.len() - i, 1int,
{
    if i < 0 || i >= tokens.len() {
        Err(TokenParseError::ExpectedProperty)
    } else if tokens[i] is RightBrace {
        Ok((acc, i + 1))
    } else {
        match tokens[i] {
            TokenModel::String(raw) => {
                let k = i + 1;
                if k < tokens.len() && tokens[k] is Colon {
                    match spec_unescape(raw) {
                        Err(e) => Err(e),
                        Ok(key) => match spec_parse_value(tokens, k + 1) {
                            Err(e) => Err(e),
                            Ok((v, j)) => {
                                let acc2 = obj_insert(acc, key, v);
                                if j <= k + 1 || j > tokens.len() {
                                    // never reached: a parsed value always
                                    // advances the cursor and stays inside
                                    // the tokens
                                    Err(TokenParseError::ExpectedValue)
                                } else if j == tokens.len() {
                                    Err(TokenParseError::ExpectedComma)
                                } else if tokens[j] is Comma {
                                    spec_parse_object_items(tokens, j + 1, acc2)
                                } else if tokens[j] is RightBrace {
                                    Ok((acc2, j + 1))
                                } else {
                                    Err(TokenParseError::ExpectedComma)
                                }
                            },
                        },
                    }
                } else {
                    if k >= tokens.len() {
                        Err(TokenParseError::ExpectedComma)
                    } else if tokens[k] is Comma {
                        spec_parse_object_items(tokens, k + 1, acc)
                    } else if tokens[k] is RightBrace {
                        Ok((acc, k + 1))
                    } else {
                        Err(TokenParseError::ExpectedComma)
                    }
                }
            },
            _ => Err(TokenParseError::ExpectedProperty),
        }
    }
}

/// A successfully parsed value always advances the cursor and leaves it
/// inside the token sequence, one past the last token it consumed.
pub proof fn lemma_parse_value_advances(tokens: Seq<TokenModel>, i: int)
    ensures
        spec_parse_value(tokens, i) matches Ok((v, j)) ==> i < j <= tokens.len(),
    decreases tokens.len() - i, 0int,
{
    if 0 <= i < tokens.len() {
        match tokens[i] {
            TokenModel::LeftBracket => {
                lemma_parse_array_items_advances(tokens, i + 1, Seq::empty());
            },
            TokenModel::LeftBrace => {
                lemma_parse_object_items_advances(tokens, i + 1, Seq::empty());
            },
            _ => {},
        }
    }
}

/// Parsing the rest of an array always leaves the cursor inside the token
/// sequence, past the position it started from.
pub proof fn lemma_parse_array_items_advances(
    tokens: Seq<TokenModel>,
    i: int,
    acc: Seq<ValueModel>,
)
    ensures
        spec_parse_array_items(tokens, i, acc) matches Ok((items, j)) ==> i < j <= tokens.len(),
    decreases tokens.len() - i, 1int,
{
    if 0 <= i < tokens.len() && !(tokens[i] is RightBracket) {
        lemma_parse_value_advances(tokens, i);
        match spec_parse_value(tokens, i) {
            Ok((v, j)) => {
                if i < j < tokens.len() && tokens[j] is Comma {
                    lemma_parse_array_items_advances(tokens, j + 1, acc.push(v));
                }
            },
            _ => {},
        }
    }
}

/// Parsing the rest of an object always leaves the cursor inside the
/// token sequence, past the position it started from.
pub proof fn lemma_parse_object_items_advances(
    tokens: Seq<TokenModel>,
    i: int,
    acc: Seq<(Seq<char>, ValueModel)>,
)
    ensures
        spec_parse_object_items(tokens, i, acc) matches Ok((pairs, j)) ==> i < j <= tokens.len(),
    decreases tokens.len() - i, 1int,
{
    if 0 <= i < tokens.len() && !(tokens[i] is RightBrace) {
        match tokens[i] {
            TokenModel::String(raw) => {
                let k = i + 1;
                if k < tokens.len() && tokens[k] is Colon {
                    lemma_parse_value_advances(tokens, k + 1);
                    match (spec_unescape(raw), spec_parse_value(tokens, k + 1)) {
                        (Ok(key), Ok((v, j))) => {
                            if k + 1 < j < tokens.len() && tokens[j] is Comma {
                                lemma_parse_object_items_advances(
                                    tokens,
                                    j + 1,
                                    obj_insert(acc, key, v),
                                );
                            }
                        },
                        _ => {},
                    }
                } else {
                    if k < tokens.len() && tokens[k] is Comma {
                        lemma_parse_object_items_advances(tokens, k + 1, acc);
                    }
                }
            },
            _ => {},
        }
    }
}

/// Whether the entries of an object carry pairwise distinct keys.
pub open spec fn keys_unique(pairs: Seq<(Seq<char>, ValueModel)>) -> bool {
    forall|m1: int, m2: int|
        0 <= m1 < m2 < pairs.len() ==> (#[trigger] pairs[m1]).0 != (#[trigger] pairs[m2]).0
}

/// Whether every object anywhere in the value carries pairwise distinct
/// keys.
pub open spec fn wf_value(v: ValueModel) -> bool
    decreases v,
{
    match v {
        ValueModel::Array(items) => forall|k: int|
            0 <= k < items.len() ==> wf_value(#[trigger] items[k]),
        ValueModel::Object(pairs) => keys_unique(pairs) && forall|k: int|
            0 <= k < pairs.len() ==> wf_value((#[trigger] pairs[k]).1),
        _ => true,
    }
}

/// The insertion keeps keys pairwise distinct and every value well
/// formed, and brings in no key but its own.
proof fn lemma_obj_insert_wf(pairs: Seq<(Seq<char>, ValueModel)>, key: Seq<char>, v: ValueModel)
    requires
        keys_unique(pairs),
        forall|k: int| 0 <= k < pairs.len() ==> wf_value((#[trigger] pairs[k]).1),
        wf_value(v),
    ensures
        keys_unique(obj_insert(pairs, key, v)),
        forall|k: int|
            0 <= k < obj_insert(pairs, key, v).len() ==> wf_value(
                (#[trigger] obj_insert(pairs, key, v)[k]).1,
            ),
        forall|k: int|
            0 <= k < obj_insert(pairs, key, v).len() ==> ((#[trigger] obj_insert(pairs, key, v)[k]).0
                == key || exists|m: int|
                0 <= m < pairs.len() && (#[trigger] pairs[m]).0 == obj_insert(pairs, key, v)[k].0),
    decreases pairs.len(),
{
    let res = obj_insert(pairs, key, v);
    if pairs.len() == 0 {
    } else if pairs[0].0 == key {
        assert forall|k: int| 0 <= k < res.len() implies ((#[trigger] res[k]).0 == key || exists|m: int|
            0 <= m < pairs.len() && (#[trigger] pairs[m]).0 == res[k].0) by {
            if k > 0 {
                assert(res[k] == pairs[k]);
                assert(pairs[k].0 == res[k].0);
            }
        }
    } else {
        assert forall|m1: int, m2: int| 0 <= m1 < m2 < pairs.drop_first().len() implies (
        #[trigger] pairs.drop_first()[m1]).0 != (#[trigger] pairs.drop_first()[m2]).0 by {
            assert(pairs.drop_first()[m1] == pairs[m1 + 1]);
            assert(pairs.drop_first()[m2] == pairs[m2 + 1]);
        }
        assert forall|k: int| 0 <= k < pairs.drop_first().len() implies wf_value(
            (#[trigger] pairs.drop_first()[k]).1,
        ) by {
            assert(pairs.drop_first()[k] == pairs[k + 1]);
        }
        lemma_obj_insert_wf(pairs.drop_first(), key, v);
        let sub = obj_insert(pairs.drop_first(), key, v);
        assert(res =~= seq![pairs[0]] + sub);
        assert forall|k: int| 0 <= k < res.len() implies ((#[trigger] res[k]).0 == key || exists|m: int|
            0 <= m < pairs.len() && (#[trigger] pairs[m]).0 == res[k].0) by {
            if k == 0 {
                assert(pairs[0].0 == res[0].0);
            } else {
                assert(res[k] == sub[k - 1]);
                if sub[k - 1].0 != key {
                    let m = choose|m: int|
                        0 <= m < pairs.drop_first().len() && (#[trigger] pairs.drop_first()[m]).0
                            == sub[k - 1].0;
                    assert(pairs[m + 1].0 == res[k].0);
                }
            }
        }
        assert forall|m1: int, m2: int| 0 <= m1 < m2 < res.len() implies (#[trigger] res[m1]).0 != (
        #[trigger] res[m2]).0 by {
            if m1 == 0 {
                assert(res[m2] == sub[m2 - 1]);
                if sub[m2 - 1].0 == key {
                    assert(pairs[0].0 != key);
                } else {
                    let m = choose|m: int|
                        0 <= m < pairs.drop_first().len() && (#[trigger] pairs.drop_first()[m]).0
                            == sub[m2 - 1].0;
                    assert(pairs.drop_first()[m] == pairs[m + 1]);
                    assert(pairs[0].0 != pairs[m + 1].0);
                }
            } else {
                assert(res[m1] == sub[m1 - 1]);
                assert(res[m2] == sub[m2 - 1]);
            }
        }
    }
}

/// Whatever value a parse yields, every object anywhere in it maps
/// pairwise distinct keys: later duplicate keys were overwritten, never
/// kept side by side.
pub proof fn lemma_parse_value_wf(tokens: Seq<TokenModel>, i: int)
    ensures
        spec_parse_value(tokens, i) matches Ok((v, j)) ==> wf_value(v),
    decreases tokens.len() - i, 0int,
{
    if 0 <= i < tokens.len() {
        match tokens[i] {
            TokenModel::LeftBracket => {
                lemma_parse_array_items_wf(tokens, i + 1, Seq::empty());
            },
            TokenModel::LeftBrace => {
                lemma_parse_object_items_wf(tokens, i + 1, Seq::empty());
            },
            _ => {},
        }
    }
}

/// Parsing the rest of an array keeps every element well formed, given
/// that the elements collected so far are.
proof fn lemma_parse_array_items_wf(tokens: Seq<TokenModel>, i: int, acc: Seq<ValueModel>)
    requires
        forall|k: int| 0 <= k < acc.len() ==> wf_value(#[trigger] acc[k]),
    ensures
        spec_parse_array_items(tokens, i, acc) matches Ok((items, j)) ==> forall|k: int|
            0 <= k < items.len() ==> wf_value(#[trigger] items[k]),
    decreases tokens.len() - i, 1int,
{
    if 0 <= i < tokens.len() && !(tokens[i] is RightBracket) {
        lemma_parse_value_wf(tokens, i);
        match spec_parse_value(tokens, i) {
            Ok((v, j)) => {
                if i < j < tokens.len() && tokens[j] is Comma {
                    lemma_parse_array_items_wf(tokens, j + 1, acc.push(v));
                }
            },
            _ => {},
        }
    }
}

/// Parsing the rest of an object keeps the keys pairwise distinct and
/// every value well formed, given that the entries collected so far are
/// so.
proof fn lemma_parse_object_items_wf(
    tokens: Seq<TokenModel>,
    i: int,
    acc: Seq<(Seq<char>, ValueModel)>,
)
    requires
        keys_unique(acc),
        forall|k: int| 0 <= k < acc.len() ==> wf_value((#[trigger] acc[k]).1),
    ensures
        spec_parse_object_items(tokens, i, acc) matches Ok((pairs, j)) ==> (keys_unique(pairs)
            && forall|k: int| 0 <= k < pairs.len() ==> wf_value((#[trigger] pairs[k]).1)),
    decreases tokens.len() - i, 1int,
{
    if 0 <= i < tokens.len() && !(tokens[i] is RightBrace) {
        match tokens[i] {
            TokenModel::String(raw) => {
                let k = i + 1;
                if k < tokens.len() && tokens[k] is Colon {
                    lemma_parse_value_wf(tokens, k + 1);
                    match (spec_unescape(raw), spec_parse_value(tokens, k + 1)) {
                        (Ok(key), Ok((v, j))) => {
                            lemma_obj_insert_wf(acc, key, v);
                            if k + 1 < j < tokens.len() && tokens[j] is Comma {
                                lemma_parse_object_items_wf(
                                    tokens,
                                    j + 1,
                                    obj_insert(acc, key, v),
                                );
                            }
                        },
                        _ => {},
                    }
                } else {
                    if k < tokens.len() && tokens[k] is Comma {
                        lemma_parse_object_items_wf(tokens, k + 1, acc);
                    }
                }
            },
            _ => {},
        }
    }
}

/// Parsing at a keyword-literal token yields the corresponding value and
/// consumes exactly that one token.
pub proof fn lemma_parse_literal(tokens: Seq<TokenModel>, i: int)
    requires
        0 <= i < tokens.len(),
    ensures
        tokens[i] is Null ==> spec_parse_value(tokens, i) == Ok::<(ValueModel, int), TokenParseError>(
            (ValueModel::Null, i + 1),
        ),
        tokens[i] is True ==> spec_parse_value(tokens, i) == Ok::<(ValueModel, int), TokenParseError>(
            (ValueModel::Boolean(true), i + 1),
        ),
        tokens[i] is False ==> spec_parse_value(tokens, i) == Ok::<
            (ValueModel, int),
            TokenParseError,
        >((ValueModel::Boolean(false), i + 1)),
        tokens[i] is Number ==> spec_parse_value(tokens, i) == Ok::<
            (ValueModel, int),
            TokenParseError,
        >((ValueModel::Number(tokens[i]->Number_0), i + 1)),
{
}

/// Decoding text that holds no backslash yields the text unchanged.
pub proof fn lemma_unescape_plain(s: Seq<char>, i: int)
    requires
        0 <= i <= s.len(),
        forall|k: int| i <= k < s.len() ==> s[k] != '\\',
    ensures
        spec_unescape_from(s, i) == Ok::<Seq<char>, TokenParseError>(
            s.subrange(i, s.len() as int),
        ),
    decreases s.len() - i,
{
    if i >= s.len() {
        assert(s.subrange(i, s.len() as int) =~= Seq::<char>::empty());
    } else {
        lemma_unescape_plain(s, i + 1);
        assert(seq![s[i]] + s.subrange(i + 1, s.len() as int) =~= s.subrange(i, s.len() as int));
    }
}

/// One escaped character that is not a unicode escape decodes by
/// [`simple_escape`], and the decoding of the rest follows unchanged.
pub proof fn lemma_unescape_simple_escape(raw: Seq<char>, i: int)
    requires
        0 <= i,
        i + 1 < raw.len(),
        raw[i] == '\\',
        raw[i + 1] != 'u',
    ensures
        spec_unescape_from(raw, i) == (match spec_unescape_from(raw, i + 2) {
            Ok(rest) => Ok::<Seq<char>, TokenParseError>(seq![simple_escape(raw[i + 1])] + rest),
            Err(e) => Err::<Seq<char>, TokenParseError>(e),
        }),
{
}

/// Decoding text whose only backslash escapes a character with no defined
/// escape meaning yields the text with just that backslash removed: the
/// escaped character comes through unchanged.
pub proof fn lemma_unescape_undefined_escape(prefix: Seq<char>, c: char, suffix: Seq<char>)
    requires
        forall|k: int| 0 <= k < prefix.len() ==> prefix[k] != '\\',
        forall|k: int| 0 <= k < suffix.len() ==> suffix[k] != '\\',
        c != '\\' && c != '"' && c != 'n' && c != 'r' && c != 't' && c != 'b' && c != 'f' && c
            != 'u',
    ensures
        spec_unescape(prefix + seq!['\\', c] + suffix) == Ok::<Seq<char>, TokenParseError>(
            prefix + seq![c] + suffix,
        ),
{
    lemma_unescape_undefined_from(prefix, c, suffix, 0);
    assert((prefix + seq!['\\', c] + suffix).subrange(0, prefix.len() as int) =~= prefix);
    assert(prefix.subrange(0, prefix.len() as int) =~= prefix);
}

proof fn lemma_unescape_undefined_from(prefix: Seq<char>, c: char, suffix: Seq<char>, i: int)
    requires
        0 <= i <= prefix.len(),
        forall|k: int| 0 <= k < prefix.len() ==> prefix[k] != '\\',
        forall|k: int| 0 <= k < suffix.len() ==> suffix[k] != '\\',
        c != '\\' && c != '"' && c != 'n' && c != 'r' && c != 't' && c != 'b' && c != 'f' && c
            != 'u',
    ensures
        spec_unescape_from(prefix + seq!['\\', c] + suffix, i) == Ok::<Seq<char>, TokenParseError>(
            prefix.subrange(i, prefix.len() as int) + seq![c] + suffix,
        ),
    decreases prefix.len() - i,
{
    let full = prefix + seq!['\\', c] + suffix;
    let plen = prefix.len() as int;
    if i == plen {
        assert(full[i] == '\\');
        assert(full[i + 1] == c);
        assert(simple_escape(c) == c);
        lemma_unescape_plain(full, i + 2);
        assert(full.subrange(i + 2, full.len() as int) =~= suffix);
        assert(seq![c] + suffix =~= prefix.subrange(i, plen) + seq![c] + suffix);
    } else {
        assert(full[i] == prefix[i]);
        lemma_unescape_undefined_from(prefix, c, suffix, i + 1);
        assert(seq![prefix[i]] + (prefix.subrange(i + 1, plen) + seq![c] + suffix) =~= prefix.subrange(
            i,
            plen,
        ) + seq![c] + suffix);
    }
}

/// A `\uXXXX` escape standing alone decodes to the character whose scalar
/// value the four hexadecimal digits spell big-endian, and to
/// `InvalidCodePointValue` when that value is no Unicode scalar value.
pub proof fn lemma_unescape_unicode(h: Seq<char>)
    requires
        h.len() == 4,
        forall|k: int| 0 <= k < 4 ==> is_hex_digit(#[trigger] h[k]),
    ensures
        ({
            let v = 4096 * hex_digit_value(h[0]) + 256 * hex_digit_value(h[1]) + 16
                * hex_digit_value(h[2]) + hex_digit_value(h[3]);
            &&& (v < 0xD800 || v >= 0xE000) ==> spec_unescape(seq!['\\', 'u'] + h) == Ok::<
                Seq<char>,
                TokenParseError,
            >(seq![(v as u32) as char])
            &&& !(v < 0xD800 || v >= 0xE000) ==> spec_unescape(seq!['\\', 'u'] + h) == Err::<
                Seq<char>,
                TokenParseError,
            >(TokenParseError::InvalidCodePointValue)
        }),
{
    let full = seq!['\\', 'u'] + h;
    assert(full[0] == '\\');
    assert(full[1] == 'u');
    assert(full[2] == h[0] && full[3] == h[1] && full[4] == h[2] && full[5] == h[3]);
    let v = 4096 * hex_digit_value(h[0]) + 256 * hex_digit_value(h[1]) + 16 * hex_digit_value(h[2])
        + hex_digit_value(h[3]);
    assert(hex_quad_value(full, 2) == Ok::<u32, TokenParseError>(v as u32));
    if v < 0xD800 || v >= 0xE000 {
        assert(spec_unescape_from(full, 6) == Ok::<Seq<char>, TokenParseError>(Seq::empty()));
        assert(seq![(v as u32) as char] + Seq::<char>::empty() =~= seq![(v as u32) as char]);
    }
}

/// When the first entry carrying `key` stands at position `idx`, the
/// insertion overwrites exactly that entry.
proof fn lemma_obj_insert_found(
    pairs: Seq<(Seq<char>, ValueModel)>,
    key: Seq<char>,
    v: ValueModel,
    idx: int,
)
    requires
        0 <= idx < pairs.len(),
        pairs[idx].0 == key,
        forall|m: int| 0 <= m < idx ==> (#[trigger] pairs[m]).0 != key,
    ensures
        obj_insert(pairs, key, v) == pairs.update(idx, (key, v)),
    decreases idx,
{
    if idx == 0 {
        assert(obj_insert(pairs, key, v) =~= pairs.update(0, (key, v)));
    } else {
        assert(pairs.drop_first()[idx - 1] == pairs[idx]);
        assert forall|m: int| 0 <= m < idx - 1 implies (#[trigger] pairs.drop_first()[m]).0
            != key by {
            assert(pairs.drop_first()[m] == pairs[m + 1]);
        }
        lemma_obj_insert_found(pairs.drop_first(), key, v, idx - 1);
        assert(obj_insert(pairs, key, v) =~= pairs.update(idx, (key, v)));
    }
}

/// When no entry carries `key`, the insertion appends the pair.
proof fn lemma_obj_insert_absent(pairs: Seq<(Seq<char>, ValueModel)>, key: Seq<char>, v: ValueModel)
    requires
        forall|m: int| 0 <= m < pairs.len() ==> (#[trigger] pairs[m]).0 != key,
    ensures
        obj_insert(pairs, key, v) == pairs.push((key, v)),
    decreases pairs.len(),
{
    if pairs.len() == 0 {
        assert(obj_insert(pairs, key, v) =~= pairs.push((key, v)));
    } else {
        assert forall|m: int| 0 <= m < pairs.drop_first().len() implies (#[trigger] pairs.drop_first()[m]).0
            != key by {
            assert(pairs.drop_first()[m] == pairs[m + 1]);
        }
        lemma_obj_insert_absent(pairs.drop_first(), key, v);
        assert(obj_insert(pairs, key, v) =~= pairs.push((key, v)));
    }
}

/// Decodes the raw inter-quote text of a string token, exactly as
/// [`spec_unescape`] describes.
pub fn unescape_string(input: &str) -> (r: Result<String, TokenParseError>)
    ensures
        ({
            match spec_unescape(input@) {
                Ok(s) => (r matches Ok(out) && out@ == s),
                Err(e) => r == Err::<String, TokenParseError>(e),
            }
        }),
{
    let raw = chars_of(input);
    let n = raw.len();
    let mut output: Vec<char> = Vec::new();
    let mut i: usize = 0;

    while i < n
        invariant
            0 <= i <= n,
            n == raw@.len(),
            raw@ == input@,
            spec_unescape_from(raw@, 0) == (match spec_unescape_from(raw@, i as int) {
                Ok(rest) => Ok::<Seq<char>, TokenParseError>(output@ + rest),
                Err(e) => Err::<Seq<char>, TokenParseError>(e),
            }),
        decreases n - i,
    {
        let ghost i0 = i as int;
        let ghost out0 = output@;
        let ch = raw[i];
        if ch != '\\' {
            output.push(ch);
            i += 1;
            proof {
                match spec_unescape_from(raw@, i as int) {
                    Ok(rest) => {
                        assert(out0 + (seq![ch] + rest) =~= output@ + rest);
                    },
                    Err(_) => {},
                }
            }
        } else if i + 1 >= n {
            // a backslash that ends the text is dropped
            i = n;
            proof {
                assert(out0 + Seq::<char>::empty() =~= output@ + Seq::<char>::empty());
            }
        } else {
            let e = raw[i + 1];
            if e == 'u' {
                if i + 2 >= n {
                    return Err(TokenParseError::UnfinishedEscape);
                }
                let d0 = match hex_char_value(raw[i + 2]) {
                    Some(d) => d,
                    None => {
                        return Err(TokenParseError::InvalidHexValue);
                    },
                };
                if i + 3 >= n {
                    return Err(TokenParseError::UnfinishedEscape);
                }
                let d1 = match hex_char_value(raw[i + 3]) {
                    Some(d) => d,
                    None => {
                        return Err(TokenParseError::InvalidHexValue);
                    },
                };
                if i + 4 >= n {
                    return Err(TokenParseError::UnfinishedEscape);
                }
                let d2 = match hex_char_value(raw[i + 4]) {
                    Some(d) => d,
                    None => {
                        return Err(TokenParseError::InvalidHexValue);
                    },
                };
                if i + 5 >= n {
                    return Err(TokenParseError::UnfinishedEscape);
                }
                let d3 = match hex_char_value(raw[i + 5]) {
                    Some(d) => d,
                    None => {
                        return Err(TokenParseError::InvalidHexValue);
                    },
                };
                let sum: u32 = 4096 * d0 + 256 * d1 + 16 * d2 + d3;
                proof {
                    assert(hex_quad_value(raw@, i0 + 2) == Ok::<u32, TokenParseError>(sum));
                }
                let c = match char_from_u32(sum) {
                    Some(c) => c,
                    None => {
                        return Err(TokenParseError::InvalidCodePointValue);
                    },
                };
                output.push(c);
                i += 6;
                proof {
                    match spec_unescape_from(raw@, i as int) {
                        Ok(rest) => {
                            assert(out0 + (seq![c] + rest) =~= output@ + rest);
                        },
                        Err(_) => {},
                    }
                }
            } else {
                let decoded = if e == '\\' {
                    '\\'
                } else if e == '"' {
                    '"'
                } else if e == 'n' {
                    '\n'
                } else if e == 'r' {
                    '\r'
                } else if e == 't' {
                    '\t'
                } else if e == 'b' {
                    '\u{8}'
                } else if e == 'f' {
                    '\u{12}'
                } else {
                    e
                };
                output.push(decoded);
                i += 2;
                proof {
                    assert(decoded == simple_escape(raw@[i0 + 1]));
                    match spec_unescape_from(raw@, i as int) {
                        Ok(rest) => {
                            assert(out0 + (seq![decoded] + rest) =~= output@ + rest);
                        },
                        Err(_) => {},
                    }
                }
            }
        }
    }
    proof {
        assert(output@ + Seq::<char>::empty() =~= output@);
    }
    Ok(chars_to_string(&output))
}

/// Decodes a string token's raw text and wraps it as a string value.
fn parse_string(input: &str) -> (r: Result<Value, TokenParseError>)
    ensures
        ({
            match spec_unescape(input@) {
                Ok(s) => (r matches Ok(v) && v@ == ValueModel::String(s)),
                Err(e) => r == Err::<Value, TokenParseError>(e),
            }
        }),
{
    match unescape_string(input) {
        Ok(output) => Ok(Value::String(output)),
        Err(e) => Err(e),
    }
}

/// Parses one value at position `i`, returning it together with the
/// position one past the last token it consumed.
fn parse_value_at(tokens: &[Token], i: usize) -> (r: Result<(Value, usize), TokenParseError>)
    ensures
        ({
            let m = spec_parse_value(tokens_model(tokens@), i as int);
            match r {
                Ok((v, j)) => (m matches Ok((vm, mj)) && v@ == vm && j as int == mj),
                Err(e) => m == Err::<(ValueModel, int), TokenParseError>(e),
            }
        }),
    decreases tokens@.len() - i, 0int,
{
    let ghost tm = tokens_model(tokens@);
    proof {
        assert(tm.len() == tokens@.len());
    }
    if i >= tokens.len() {
        return Err(TokenParseError::ExpectedValue);
    }
    proof {
        assert(tm[i as int] == tokens@[i as int]@);
    }
    match &tokens[i] {
        Token::Null => Ok((Value::Null, i + 1)),
        Token::False => Ok((Value::Boolean(false), i + 1)),
        Token::True => Ok((Value::Boolean(true), i + 1)),
        Token::Number(text) => Ok((Value::Number(text.clone()), i + 1)),
        Token::String(raw) => match parse_string(raw.as_str()) {
            Ok(v) => Ok((v, i + 1)),
            Err(e) => Err(e),
        },
        Token::LeftBracket => match parse_array(tokens, i + 1) {
            Ok((items, j)) => Ok((Value::Array(items), j)),
            Err(e) => Err(e),
        },
        Token::LeftBrace => match parse_object(tokens, i + 1) {
            Ok((pairs, j)) => Ok((Value::Object(pairs), j)),
            Err(e) => Err(e),
        },
        _ => Err(TokenParseError::ExpectedValue),
    }
}

/// Parses the elements of an array, `start` being the position directly
/// after the opening bracket, returning them together with the position
/// one past the closing bracket.
fn parse_array(tokens: &[Token], start: usize) -> (r: Result<(Vec<Value>, usize), TokenParseError>)
    ensures
        ({
            let m = spec_parse_array_items(tokens_model(tokens@), start as int, Seq::empty());
            match r {
                Ok((vs, j)) => (m matches Ok((items, mj)) && array_model(vs@) == items && j as int
                    == mj),
                Err(e) => m == Err::<(Seq<ValueModel>, int), TokenParseError>(e),
            }
        }),
    decreases tokens@.len() - start, 1int,
{
    let ghost tm = tokens_model(tokens@);
    proof {
        assert(tm.len() == tokens@.len());
    }
    let mut output: Vec<Value> = Vec::new();
    let mut i = start;

    loop
        invariant
            start <= i,
            tm == tokens_model(tokens@),
            tm.len() == tokens@.len(),
            spec_parse_array_items(tm, start as int, Seq::empty()) == spec_parse_array_items(
                tm,
                i as int,
                array_model(output@),
            ),
        decreases tokens@.len() - i,
    {
        let ghost acc0 = array_model(output@);
        if i >= tokens.len() {
            return Err(TokenParseError::ExpectedValue);
        }
        proof {
            assert(tm[i as int] == tokens@[i as int]@);
        }
        if matches!(&tokens[i], Token::RightBracket) {
            return Ok((output, i + 1));
        }
        let (v, j) = match parse_value_at(tokens, i) {
            Ok(p) => p,
            Err(e) => {
                return Err(e);
            },
        };
        proof {
            lemma_parse_value_advances(tm, i as int);
        }
        let ghost out0 = output@;
        output.push(v);
        proof {
            lemma_array_model_index(out0);
            lemma_array_model_index(output@);
            assert(array_model(output@) =~= acc0.push(v@));
        }
        if j >= tokens.len() {
            return Err(TokenParseError::ExpectedComma);
        }
        proof {
            assert(tm[j as int] == tokens@[j as int]@);
        }
        match &tokens[j] {
            Token::Comma => {
                i = j + 1;
            },
            Token::RightBracket => {
                return Ok((output, j + 1));
            },
            _ => {
                return Err(TokenParseError::ExpectedComma);
            },
        }
    }
}

/// Binds `key` to `v` in `pairs`: overwrites the value of the first entry
/// with an equal key in place, or appends the pair at the end.
fn insert_pair(pairs: &mut Vec<(String, Value)>, key: String, v: Value)
    ensures
        object_model(final(pairs)@) == obj_insert(
            object_model(old(pairs)@),
            key@,
            value_model(v),
        ),
{
    let ghost pm = object_model(old(pairs)@);
    proof {
        lemma_object_model_index(old(pairs)@);
    }
    let n = pairs.len();
    let mut idx: usize = 0;

    while idx < n
        invariant
            0 <= idx <= n,
            n == pairs@.len(),
            pairs@ == old(pairs)@,
            forall|m: int| 0 <= m < idx ==> (#[trigger] pm[m]).0 != key@,
        decreases n - idx,
    {
        if pairs[idx].0 == key {
            proof {
                assert(pm[idx as int].0 == key@);
                lemma_obj_insert_found(pm, key@, value_model(v), idx as int);
            }
            let ghost before = pairs@;
            pairs[idx] = (key, v);
            proof {
                lemma_object_model_index(before);
                lemma_object_model_index(pairs@);
                assert(object_model(pairs@) =~= pm.update(idx as int, (key@, value_model(v))));
            }
            return;
        }
        proof {
            assert(pm[idx as int].0 != key@);
        }
        idx += 1;
    }
    proof {
        lemma_obj_insert_absent(pm, key@, value_model(v));
    }
    let ghost before = pairs@;
    pairs.push((key, v));
    proof {
        lemma_object_model_index(before);
        lemma_object_model_index(pairs@);
        assert(object_model(pairs@) =~= pm.push((key@, value_model(v))));
    }
}

/// Parses the entries of an object, `start` being the position directly
/// after the opening brace, returning them together with the position one
/// past the closing brace.
fn parse_object(tokens: &[Token], start: usize) -> (r: Result<
    (Vec<(String, Value)>, usize),
    TokenParseError,
>)
    ensures
        ({
            let m = spec_parse_object_items(tokens_model(tokens@), start as int, Seq::empty());
            match r {
                Ok((ps, j)) => (m matches Ok((pairs, mj)) && object_model(ps@) == pairs && j as int
                    == mj),
                Err(e) => m == Err::<(Seq<(Seq<char>, ValueModel)>, int), TokenParseError>(e),
            }
        }),
    decreases tokens@.len() - start, 1int,
{
    let ghost tm = tokens_model(tokens@);
    proof {
        assert(tm.len() == tokens@.len());
    }
    let mut output: Vec<(String, Value)> = Vec::new();
    let mut i = start;

    loop
        invariant
            start <= i,
            tm == tokens_model(tokens@),
            tm.len() == tokens@.len(),
            spec_parse_object_items(tm, start as int, Seq::empty()) == spec_parse_object_items(
                tm,
                i as int,
                object_model(output@),
            ),
        decreases tokens@.len() - i,
    {
        let ghost acc0 = object_model(output@);
        if i >= tokens.len() {
            return Err(TokenParseError::ExpectedProperty);
        }
        proof {
            assert(tm[i as int] == tokens@[i as int]@);
        }
        if matches!(&tokens[i], Token::RightBrace) {
            return Ok((output, i + 1));
        }
        let prop = match &tokens[i] {
            Token::String(prop) => prop,
            _ => {
                return Err(TokenParseError::ExpectedProperty);
            },
        };
        let k = i + 1;
        let has_colon = k < tokens.len() && matches!(&tokens[k], Token::Colon);
        proof {
            if (k as int) < tm.len() {
                assert(tm[k as int] == tokens@[k as int]@);
            }
        }
        if has_colon {
            let key = match unescape_string(prop.as_str()) {
                Ok(s) => s,
                Err(e) => {
                    return Err(e);
                },
            };
            let (v, j) = match parse_value_at(tokens, k + 1) {
                Ok(p) => p,
                Err(e) => {
                    return Err(e);
                },
            };
            proof {
                lemma_parse_value_advances(tm, k as int + 1);
            }
            insert_pair(&mut output, key, v);
            if j >= tokens.len() {
                return Err(TokenParseError::ExpectedComma);
            }
            proof {
                assert(tm[j as int] == tokens@[j as int]@);
            }
            match &tokens[j] {
                Token::Comma => {
                    i = j + 1;
                },
                Token::RightBrace => {
                    return Ok((output, j + 1));
                },
                _ => {
                    return Err(TokenParseError::ExpectedComma);
                },
            }
        } else {
            // the colon is missing: the property is skipped, and parsing
            // goes on at the delimiter that follows the name
            if k >= tokens.len() {
                return Err(TokenParseError::ExpectedComma);
            }
            match &tokens[k] {
                Token::Comma => {
                    i = k + 1;
                },
                Token::RightBrace => {
                    return Ok((output, k + 1));
                },
                _ => {
                    return Err(TokenParseError::ExpectedComma);
                },
            }
        }
    }
}

/// Parses one value beginning at the cursor, leaving the cursor one past
/// the last token the value consumed, exactly as [`spec_parse_value`]
/// describes.
pub fn parse_tokens(tokens: &[Token], index: &mut usize) -> (r: Result<Value, TokenParseError>)
    ensures
        ({
            let m = spec_parse_value(tokens_model(tokens@), *old(index) as int);
            match r {
                Ok(v) => (m matches Ok((vm, j)) && v@ == vm && *final(index) as int == j),
                Err(e) => m == Err::<(ValueModel, int), TokenParseError>(e),
            }
        }),
{
    match parse_value_at(tokens, *index) {
        Ok((v, j)) => {
            *index = j;
            Ok(v)
        },
        Err(e) => Err(e),
    }
}

} // verus!
