//! The lexer: a single left-to-right scan of the input characters that
//! produces a flat sequence of [`Token`]s, or fails with a
//! [`TokenizeError`].
//!
//! The meaning of the scan is given by [`spec_tokenize`]; [`tokenize`]
//! returns exactly what it describes.
use vstd::prelude::*;

use crate::text::{chars_of, chars_to_string, digit_char, is_digit, is_json_ws, ws_char};

verus! {

/// Represents possible lexical tokens.
#[derive(Debug, PartialEq)]
pub enum Token {
    /// '{'
    LeftBrace,
    /// '}'
    RightBrace,
    /// '['
    LeftBracket,
    /// ']'
    RightBracket,
    /// ','
    Comma,
    /// ':'
    Colon,
    /// 'null'
    Null,
    /// 'false'
    False,
    /// 'true'
    True,
    /// A number literal, kept as the numeral text that was scanned
    Number(String),
    /// Key of the value or string value, still escaped: the raw text
    /// between the quotes
    String(String),
}

/// The mathematical model of a [`Token`]: the same shape, with text
/// abstracted to its sequence of characters.
pub enum TokenModel {
    LeftBrace,
    RightBrace,
    LeftBracket,
    RightBracket,
    Comma,
    Colon,
    Null,
    False,
    True,
    Number(Seq<char>),
    String(Seq<char>),
}

impl View for Token {
    type V = TokenModel;

    open spec fn view(&self) -> TokenModel {
        match self {
            Token::LeftBrace => TokenModel::LeftBrace,
            Token::RightBrace => TokenModel::RightBrace,
            Token::LeftBracket => TokenModel::LeftBracket,
            Token::RightBracket => TokenModel::RightBracket,
            Token::Comma => TokenModel::Comma,
            Token::Colon => TokenModel::Colon,
            Token::Null => TokenModel::Null,
            Token::False => TokenModel::False,
            Token::True => TokenModel::True,
            Token::Number(t) => TokenModel::Number(t@),
            Token::String(t) => TokenModel::String(t@),
        }
    }
}

/// The model of a token sequence.
pub open spec fn tokens_model(ts: Seq<Token>) -> Seq<TokenModel> {
    ts.map_values(|t: Token| t@)
}

/// Possible errors that can occur when tokenizing the input.
#[derive(Debug, PartialEq, Eq, Clone)]
pub enum TokenizeError {
    /// The input started a keyword literal but did not spell it out
    UnfinishedLiteralValue,
    /// The scanned numeral is not a valid number
    ParseNumberError,
    /// Matching closing quotes are not found
    UnclosedQuotes,
    /// Character is not recognized as a part of a valid JSON token
    CharNotRecognized(char),
    /// Input ended prematurely
    UnexpectedEof,
}

/// How many whitespace characters stand at position `i`: the distance from
/// `i` to the first non-whitespace character at or after it.
pub open spec fn ws_run(chars: Seq<char>, i: int) -> nat
    decreases chars.len() - i,
{
    if 0 <= i < chars.len() && is_json_ws(chars[i]) {
        1 + ws_run(chars, i + 1)
    } else {
        0
    }
}

/// The length of the maximal numeral run at position `i`: characters that
/// are digits or minus signs, with at most one decimal point in the whole
/// run. `seen_dot` records whether a decimal point was already consumed.
pub open spec fn num_run(chars: Seq<char>, i: int, seen_dot: bool) -> nat
    decreases chars.len() - i,
{
    if 0 <= i < chars.len() {
        if is_digit(chars[i]) || chars[i] == '-' {
            1 + num_run(chars, i + 1, seen_dot)
        } else if chars[i] == '.' && !seen_dot {
            1 + num_run(chars, i + 1, true)
        } else {
            0
        }
    } else {
        0
    }
}

/// The number of raw characters between position `i` and the unescaped
/// closing quote, scanning with escape state `esc`; `None` when the input
/// ends before an unescaped closing quote is found.
pub open spec fn str_scan(chars: Seq<char>, i: int, esc: bool) -> Option<nat>
    decreases chars.len() - i,
{
    if !(0 <= i < chars.len()) {
        None
    } else if chars[i] == '"' && !esc {
        Some(0)
    } else {
        let esc2 = if chars[i] == '\\' {
            !esc
        } else {
            false
        };
        match str_scan(chars, i + 1, esc2) {
            Some(n) => Some(n + 1),
            None => None,
        }
    }
}

/// Whether the digit part of a numeral (after any leading minus sign) is
/// well formed: non-empty, only digits and decimal points, at least one
/// digit, and at most one decimal point.
pub open spec fn numeral_digits_ok(s: Seq<char>) -> bool {
    &&& s.len() > 0
    &&& forall|k: int| 0 <= k < s.len() ==> is_digit(#[trigger] s[k]) || s[k] == '.'
    &&& exists|k: int| 0 <= k < s.len() && is_digit(#[trigger] s[k])
    &&& forall|k1: int, k2: int|
        0 <= k1 < k2 < s.len() ==> !(#[trigger] s[k1] == '.' && #[trigger] s[k2] == '.')
}

/// Whether `s` is a valid numeral: an optional leading minus sign, then a
/// well-formed digit part.
pub open spec fn is_numeral(s: Seq<char>) -> bool {
    if s.len() > 0 && s[0] == '-' {
        numeral_digits_ok(s.drop_first())
    } else {
        numeral_digits_ok(s)
    }
}

/// Whether the characters at position `i` spell out `lit`.
pub open spec fn lit_matches(chars: Seq<char>, i: int, lit: Seq<char>) -> bool {
    &&& 0 <= i
    &&& i + lit.len() <= chars.len()
    &&& chars.subrange(i, i + lit.len()) == lit
}

/// The token for a keyword literal at position `i`, or the error when the
/// input there does not spell it out.
pub open spec fn literal_token(
    chars: Seq<char>,
    i: int,
    lit: Seq<char>,
    tok: TokenModel,
) -> Result<(TokenModel, int), TokenizeError> {
    if lit_matches(chars, i, lit) {
        Ok((tok, i + lit.len()))
    } else {
        Err(TokenizeError::UnfinishedLiteralValue)
    }
}

/// The token that starts at position `j` (a non-whitespace position), with
/// the position just past it; or the error the scan of it ends in.
pub open spec fn token_at(chars: Seq<char>, j: int) -> Result<(TokenModel, int), TokenizeError> {
    let c = chars[j];
    if c == '{' {
        Ok((TokenModel::LeftBrace, j + 1))
    } else if c == '}' {
        Ok((TokenModel::RightBrace, j + 1))
    } else if c == '[' {
        Ok((TokenModel::LeftBracket, j + 1))
    } else if c == ']' {
        Ok((TokenModel::RightBracket, j + 1))
    } else if c == ',' {
        Ok((TokenModel::Comma, j + 1))
    } else if c == ':' {
        Ok((TokenModel::Colon, j + 1))
    } else if c == 'n' {
        literal_token(chars, j, seq!['n', 'u', 'l', 'l'], TokenModel::Null)
    } else if c == 't' {
        literal_token(chars, j, seq!['t', 'r', 'u', 'e'], TokenModel::True)
    } else if c == 'f' {
        literal_token(chars, j, seq!['f', 'a', 'l', 's', 'e'], TokenModel::False)
    } else if c == '"' {
        match str_scan(chars, j + 1, false) {
            Some(n) => Ok((TokenModel::String(chars.subrange(j + 1, j + 1 + n)), j + n + 2)),
            None => Err(TokenizeError::UnclosedQuotes),
        }
    } else if is_digit(c) || c == '-' {
        let n = 1 + num_run(chars, j + 1, false);
        let t = chars.subrange(j, j + n);
        if is_numeral(t) {
            Ok((TokenModel::Number(t), j + n))
        } else {
            Err(TokenizeError::ParseNumberError)
        }
    } else {
        Err(TokenizeError::CharNotRecognized(c))
    }
}

/// A whitespace run never runs past the end of the input.
pub proof fn lemma_ws_run_bound(chars: Seq<char>, i: int)
    requires
        0 <= i <= chars.len(),
    ensures
        i + ws_run(chars, i) <= chars.len(),
    decreases chars.len() - i,
{
    if i < chars.len() && is_json_ws(chars[i]) {
        lemma_ws_run_bound(chars, i + 1);
    }
}

/// A numeral run never runs past the end of the input.
pub proof fn lemma_num_run_bound(chars: Seq<char>, i: int, seen_dot: bool)
    requires
        0 <= i <= chars.len(),
    ensures
        i + num_run(chars, i, seen_dot) <= chars.len(),
    decreases chars.len() - i,
{
    if i < chars.len() {
        if is_digit(chars[i]) || chars[i] == '-' {
            lemma_num_run_bound(chars, i + 1, seen_dot);
        } else if chars[i] == '.' && !seen_dot {
            lemma_num_run_bound(chars, i + 1, true);
        }
    }
}

/// When a string scan succeeds, the closing quote stands inside the input,
/// `n` characters past the scan's start.
pub proof fn lemma_str_scan_bound(chars: Seq<char>, i: int, esc: bool)
    requires
        0 <= i,
    ensures
        str_scan(chars, i, esc) matches Some(n) ==> i + n < chars.len() && chars[i + n] == '"',
    decreases chars.len() - i,
{
    if 0 <= i < chars.len() && !(chars[i] == '"' && !esc) {
        let esc2 = if chars[i] == '\\' {
            !esc
        } else {
            false
        };
        lemma_str_scan_bound(chars, i + 1, esc2);
    }
}

/// A successful token scan moves strictly forward and stays inside the
/// input.
pub proof fn lemma_token_at_bounds(chars: Seq<char>, j: int)
    requires
        0 <= j < chars.len(),
    ensures
        token_at(chars, j) matches Ok((t, next)) ==> j < next <= chars.len(),
{
    let c = chars[j];
    if c == '"' {
        lemma_str_scan_bound(chars, j + 1, false);
    } else if is_digit(c) || c == '-' {
        lemma_num_run_bound(chars, j + 1, false);
    }
}

/// What tokenizing the input from position `i` onward yields: the token
/// sequence of the rest of the input, or the first error the scan ends in.
///
/// Whitespace is skipped before each token; input that ends while skipping
/// whitespace is an `UnexpectedEof`.
pub open spec fn spec_tokenize(chars: Seq<char>, i: int) -> Result<Seq<TokenModel>, TokenizeError>
    decreases chars.len() - i,
{
    if !(0 <= i < chars.len()) {
        Ok(Seq::empty())
    } else {
        let j = i + ws_run(chars, i);
        if j >= chars.len() {
            Err(TokenizeError::UnexpectedEof)
        } else {
            match token_at(chars, j) {
                Err(e) => Err(e),
                Ok((tok, next)) => {
                    proof {
                        lemma_ws_run_bound(chars, i);
                        lemma_token_at_bounds(chars, j);
                    }
                    match spec_tokenize(chars, next) {
                        Ok(rest) => Ok(seq![tok] + rest),
                        Err(e) => Err(e),
                    }
                },
            }
        }
    }
}

/// Scans the keyword literal `literal_value` at the current position:
/// succeeds with `token_value` when the input spells it out, leaving the
/// index on the literal's last character; fails with
/// `UnfinishedLiteralValue` on a mismatch or when the input ends early.
fn tokenize_literal(
    chars: &Vec<char>,
    index: &mut usize,
    literal_value: &Vec<char>,
    token_value: Token,
) -> (r: Result<Token, TokenizeError>)
    requires
        literal_value@.len() >= 1,
        *old(index) <= chars@.len(),
    ensures
        lit_matches(chars@, *old(index) as int, literal_value@) ==> r == Ok::<Token, TokenizeError>(
            token_value,
        ) && *final(index) as int == *old(index) + literal_value@.len() - 1,
        !lit_matches(chars@, *old(index) as int, literal_value@) ==> r == Err::<
            Token,
            TokenizeError,
        >(TokenizeError::UnfinishedLiteralValue),
{
    let ghost j = *index as int;
    let ghost lit = literal_value@;
    let mut k: usize = 0;
    while k < literal_value.len()
        invariant
            0 <= k <= lit.len(),
            lit == literal_value@,
            *index == j + k,
            j + k <= chars@.len(),
            forall|m: int| 0 <= m < k ==> chars@[j + m] == lit[m],
        decreases lit.len() - k,
    {
        if *index >= chars.len() {
            proof {
                assert(!lit_matches(chars@, j, lit));
            }
            return Err(TokenizeError::UnfinishedLiteralValue);
        }
        if literal_value[k] != chars[*index] {
            proof {
                if lit_matches(chars@, j, lit) {
                    assert(chars@.subrange(j, j + lit.len() as int)[k as int] == lit[k as int]);
                }
            }
            return Err(TokenizeError::UnfinishedLiteralValue);
        }
        *index += 1;
        k += 1;
    }
    proof {
        assert(chars@.subrange(j, j + lit.len() as int) =~= lit);
    }
    *index -= 1;
    Ok(token_value)
}

/// Whether `t` is a valid numeral, by a single scan of its characters.
fn check_numeral(t: &Vec<char>) -> (r: bool)
    ensures
        r == is_numeral(t@),
{
    let n = t.len();
    if n == 0 {
        return false;
    }
    let start: usize = if t[0] == '-' {
        1
    } else {
        0
    };
    let ghost body = if t@[0] == '-' {
        t@.drop_first()
    } else {
        t@
    };
    proof {
        assert(body =~= t@.subrange(start as int, n as int));
    }
    if start >= n {
        return false;
    }
    let mut seen_digit = false;
    let mut seen_dot = false;
    let mut k = start;
    while k < n
        invariant
            start <= k <= n,
            body == t@.subrange(start as int, n as int),
            forall|m: int| 0 <= m < k - start ==> is_digit(#[trigger] body[m]) || body[m] == '.',
            seen_digit == exists|m: int| 0 <= m < k - start && is_digit(#[trigger] body[m]),
            seen_dot == exists|m: int| 0 <= m < k - start && body[m] == '.',
            forall|m1: int, m2: int|
                0 <= m1 < m2 < k - start ==> !(#[trigger] body[m1] == '.' && #[trigger] body[m2]
                    == '.'),
        decreases n - k,
    {
        let c = t[k];
        if digit_char(c) {
            proof {
                assert(is_digit(body[k - start]));
                assert(body[k - start] != '.');
            }
            seen_digit = true;
        } else if c == '.' {
            if seen_dot {
                proof {
                    let m1 = choose|m: int| 0 <= m < k - start && body[m] == '.';
                    assert(body[m1] == '.' && body[k - start] == '.');
                }
                return false;
            }
            proof {
                assert(body[k - start] == '.');
            }
            seen_dot = true;
        } else {
            proof {
                assert(!(is_digit(body[k - start]) || body[k - start] == '.'));
            }
            return false;
        }
        k += 1;
    }
    seen_digit
}

/// Scans the maximal numeral run starting at the current position and
/// validates it: yields a `Number` token carrying the run's text and
/// leaves the index on the run's last character, or fails with
/// `ParseNumberError` when the run is not a valid numeral.
fn tokenize_float(chars: &Vec<char>, index: &mut usize) -> (r: Result<Token, TokenizeError>)
    requires
        *old(index) < chars@.len(),
        is_digit(chars@[*old(index) as int]) || chars@[*old(index) as int] == '-',
    ensures
        ({
            let j = *old(index) as int;
            let n = 1 + num_run(chars@, j + 1, false);
            let t = chars@.subrange(j, j + n);
            &&& is_numeral(t) ==> (r matches Ok(tok) && tok@ == TokenModel::Number(t)
                && *final(index) as int == j + n - 1)
            &&& (!is_numeral(t) ==> r == Err::<Token, TokenizeError>(
                TokenizeError::ParseNumberError,
            ))
        }),
{
    let ghost j = *index as int;
    let ghost n_total = 1 + num_run(chars@, j + 1, false);
    let mut unparsed_num: Vec<char> = Vec::new();
    let mut is_decimal = false;

    while *index < chars.len() && (digit_char(chars[*index]) || chars[*index] == '-' || (
    chars[*index] == '.' && !is_decimal))
        invariant
            j <= *index <= chars@.len(),
            unparsed_num@ == chars@.subrange(j, *index as int),
            n_total == (*index - j) + num_run(chars@, *index as int, is_decimal),
        decreases chars@.len() - *index,
    {
        let ch = chars[*index];
        if digit_char(ch) || ch == '-' {
            unparsed_num.push(ch);
        } else {
            unparsed_num.push('.');
            is_decimal = true;
        }
        *index += 1;
        proof {
            assert(unparsed_num@ =~= chars@.subrange(j, *index as int));
        }
    }
    proof {
        assert(num_run(chars@, *index as int, is_decimal) == 0);
        assert(*index - j == n_total);
    }
    *index -= 1;

    if check_numeral(&unparsed_num) {
        Ok(Token::Number(chars_to_string(&unparsed_num)))
    } else {
        Err(TokenizeError::ParseNumberError)
    }
}

/// Scans the raw text of a string token: everything from the character
/// after the opening quote up to the unescaped closing quote, kept
/// verbatim, escapes included. Leaves the index on the closing quote;
/// fails with `UnclosedQuotes` when the input ends first.
fn tokenize_string(chars: &Vec<char>, index: &mut usize) -> (r: Result<Token, TokenizeError>)
    requires
        *old(index) < chars@.len(),
    ensures
        ({
            let j = *old(index) as int;
            match str_scan(chars@, j + 1, false) {
                Some(n) => r matches Ok(tok) && tok@ == TokenModel::String(
                    chars@.subrange(j + 1, j + 1 + n),
                ) && *final(index) as int == j + 1 + n,
                None => r == Err::<Token, TokenizeError>(TokenizeError::UnclosedQuotes),
            }
        }),
{
    let ghost j = *index as int;
    let ghost scan0 = str_scan(chars@, j + 1, false);
    let mut string: Vec<char> = Vec::new();
    let mut in_escape_mode = false;
    let n = chars.len();
    let mut i: usize = *index + 1;

    while i < chars.len() && !(chars[i] == '"' && !in_escape_mode)
        invariant
            j + 1 <= i <= chars@.len(),
            string@ == chars@.subrange(j + 1, i as int),
            scan0 == (match str_scan(chars@, i as int, in_escape_mode) {
                Some(m) => Some(((i - j - 1) + m) as nat),
                None => None::<nat>,
            }),
        decreases chars@.len() - i,
    {
        let ch = chars[i];
        if ch == '\\' {
            in_escape_mode = !in_escape_mode;
        } else {
            in_escape_mode = false;
        }
        string.push(ch);
        i += 1;
        proof {
            assert(string@ =~= chars@.subrange(j + 1, i as int));
        }
    }

    if i >= chars.len() {
        proof {
            assert(str_scan(chars@, i as int, in_escape_mode) is None);
        }
        return Err(TokenizeError::UnclosedQuotes);
    }
    proof {
        assert(str_scan(chars@, i as int, in_escape_mode) == Some(0nat));
    }
    *index = i;
    Ok(Token::String(chars_to_string(&string)))
}

/// A numeral run takes in every remaining character, as long as they are
/// digits with at most one decimal point, of which none remains once one
/// was consumed.
proof fn lemma_num_run_full(chars: Seq<char>, p: int, seen_dot: bool)
    requires
        0 <= p <= chars.len(),
        forall|k: int| p <= k < chars.len() ==> is_digit(#[trigger] chars[k]) || chars[k] == '.',
        forall|k1: int, k2: int|
            p <= k1 < k2 < chars.len() ==> !(#[trigger] chars[k1] == '.' && #[trigger] chars[k2]
                == '.'),
        seen_dot ==> forall|k: int| p <= k < chars.len() ==> #[trigger] chars[k] != '.',
    ensures
        num_run(chars, p, seen_dot) == chars.len() - p,
    decreases chars.len() - p,
{
    if p < chars.len() {
        if is_digit(chars[p]) {
            assert(chars[p] != '.');
            lemma_num_run_full(chars, p + 1, seen_dot);
        } else {
            assert(chars[p] == '.');
            assert(!seen_dot);
            assert forall|k: int| p + 1 <= k < chars.len() implies #[trigger] chars[k] != '.' by {
                assert(!(chars[p] == '.' && chars[k] == '.'));
            }
            lemma_num_run_full(chars, p + 1, true);
        }
    }
}

/// A whole input that is one valid numeral tokenizes to exactly one
/// number token carrying that numeral.
pub proof fn lemma_tokenize_numeral(chars: Seq<char>)
    requires
        chars.len() > 0,
        is_digit(chars[0]) || chars[0] == '-',
        is_numeral(chars),
    ensures
        spec_tokenize(chars, 0) == Ok::<Seq<TokenModel>, TokenizeError>(
            seq![TokenModel::Number(chars)],
        ),
{
    assert(!is_json_ws(chars[0]));
    assert(ws_run(chars, 0) == 0);
    let body = if chars[0] == '-' {
        chars.drop_first()
    } else {
        chars
    };
    assert(numeral_digits_ok(body));
    assert forall|k: int| 1 <= k < chars.len() implies is_digit(#[trigger] chars[k]) || chars[k]
        == '.' by {
        if chars[0] == '-' {
            assert(body[k - 1] == chars[k]);
        } else {
            assert(body[k] == chars[k]);
        }
    }
    assert forall|k1: int, k2: int|
        1 <= k1 < k2 < chars.len() implies !(#[trigger] chars[k1] == '.' && #[trigger] chars[k2]
        == '.') by {
        if chars[0] == '-' {
            assert(body[k1 - 1] == chars[k1] && body[k2 - 1] == chars[k2]);
        } else {
            assert(body[k1] == chars[k1] && body[k2] == chars[k2]);
        }
    }
    lemma_num_run_full(chars, 1, false);
    assert(1 + num_run(chars, 1, false) == chars.len());
    assert(chars.subrange(0, chars.len() as int) =~= chars);
    assert(token_at(chars, 0) == Ok::<(TokenModel, int), TokenizeError>(
        (TokenModel::Number(chars), chars.len() as int),
    ));
    assert(spec_tokenize(chars, chars.len() as int) == Ok::<Seq<TokenModel>, TokenizeError>(
        Seq::empty(),
    ));
    assert(seq![TokenModel::Number(chars)] + Seq::<TokenModel>::empty() =~= seq![
        TokenModel::Number(chars),
    ]);
}

/// Skips whitespace, then scans the one token that starts there, leaving
/// the index on the token's last character. Fails with `UnexpectedEof`
/// when only whitespace remains.
fn create_token(chars: &Vec<char>, index: &mut usize) -> (r: Result<Token, TokenizeError>)
    requires
        *old(index) < chars@.len(),
    ensures
        ({
            let j = *old(index) + ws_run(chars@, *old(index) as int);
            &&& j >= chars@.len() ==> r == Err::<Token, TokenizeError>(TokenizeError::UnexpectedEof)
            &&& j < chars@.len() ==> (match token_at(chars@, j as int) {
                Ok((t, next)) => (r matches Ok(tok) && tok@ == t && *final(index) as int == next - 1
                    && *final(index) < chars@.len()),
                Err(e) => r == Err::<Token, TokenizeError>(e),
            })
        }),
{
    let ghost i0 = *index as int;
    let mut ch = chars[*index];

    while ws_char(ch)
        invariant
            i0 <= *index < chars@.len(),
            ch == chars@[*index as int],
            ws_run(chars@, i0) == (*index - i0) + ws_run(chars@, *index as int),
        decreases chars@.len() - *index,
    {
        let n = chars.len();
        *index += 1;
        if *index >= n {
            proof {
                assert(ws_run(chars@, *index as int) == 0);
            }
            return Err(TokenizeError::UnexpectedEof);
        }
        ch = chars[*index];
    }
    proof {
        assert(ws_run(chars@, *index as int) == 0);
        assert(i0 + ws_run(chars@, i0) == *index);
        lemma_token_at_bounds(chars@, *index as int);
    }

    if ch == '{' {
        Ok(Token::LeftBrace)
    } else if ch == '}' {
        Ok(Token::RightBrace)
    } else if ch == '[' {
        Ok(Token::LeftBracket)
    } else if ch == ']' {
        Ok(Token::RightBracket)
    } else if ch == ',' {
        Ok(Token::Comma)
    } else if ch == ':' {
        Ok(Token::Colon)
    } else if ch == 'n' {
        let lit = vec!['n', 'u', 'l', 'l'];
        proof {
            assert(lit@ =~= seq!['n', 'u', 'l', 'l']);
        }
        tokenize_literal(chars, index, &lit, Token::Null)
    } else if ch == 't' {
        let lit = vec!['t', 'r', 'u', 'e'];
        proof {
            assert(lit@ =~= seq!['t', 'r', 'u', 'e']);
        }
        tokenize_literal(chars, index, &lit, Token::True)
    } else if ch == 'f' {
        let lit = vec!['f', 'a', 'l', 's', 'e'];
        proof {
            assert(lit@ =~= seq!['f', 'a', 'l', 's', 'e']);
        }
        tokenize_literal(chars, index, &lit, Token::False)
    } else if ch == '"' {
        tokenize_string(chars, index)
    } else if digit_char(ch) || ch == '-' {
        tokenize_float(chars, index)
    } else {
        Err(TokenizeError::CharNotRecognized(ch))
    }
}

/// Creates a vector of tokens from a given String input.
///
/// The result is exactly what [`spec_tokenize`] describes of the input's
/// characters: the token sequence of the whole input, or the first error
/// the scan ends in.
pub fn tokenize(input: String) -> (r: Result<Vec<Token>, TokenizeError>)
    ensures
        ({
            let m = spec_tokenize(input@, 0);
            match r {
                Ok(ts) => m == Ok::<Seq<TokenModel>, TokenizeError>(tokens_model(ts@)),
                Err(e) => m == Err::<Seq<TokenModel>, TokenizeError>(e),
            }
        }),
{
    let chars: Vec<char> = chars_of(input.as_str());
    let mut index: usize = 0;
    let mut tokens: Vec<Token> = Vec::new();

    while index < chars.len()
        invariant
            0 <= index <= chars@.len(),
            chars@ == input@,
            spec_tokenize(chars@, 0) == (match spec_tokenize(chars@, index as int) {
                Ok(rest) => Ok::<Seq<TokenModel>, TokenizeError>(tokens_model(tokens@) + rest),
                Err(e) => Err::<Seq<TokenModel>, TokenizeError>(e),
            }),
        decreases chars@.len() - index,
    {
        let ghost i = index as int;
        let ghost prev_tokens = tokens@;
        let token = match create_token(&chars, &mut index) {
            Ok(t) => t,
            Err(e) => {
                return Err(e);
            },
        };
        tokens.push(token);
        index += 1;
        proof {
            let j = i + ws_run(chars@, i);
            let (t, next) = token_at(chars@, j)->Ok_0;
            assert(index as int == next);
            assert(tokens_model(tokens@) =~= tokens_model(prev_tokens) + seq![t]);
            if spec_tokenize(chars@, next) is Ok {
                let rest = spec_tokenize(chars@, next)->Ok_0;
                assert(tokens_model(prev_tokens) + (seq![t] + rest) =~= tokens_model(tokens@)
                    + rest);
            }
        }
    }
    proof {
        assert(tokens_model(tokens@) + Seq::<TokenModel>::empty() =~= tokens_model(tokens@));
    }
    Ok(tokens)
}

} // verus!
