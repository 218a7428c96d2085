use vstd::prelude::*;

use crate::report::ScanError;
use crate::token::{LiteralModel, TokenModel, TokenType};

verus! {

/// What `char::is_alphabetic` returns for `c` (the Unicode Alphabetic property).
pub uninterp spec fn alphabetic(c: char) -> bool;

/// What `char::is_alphanumeric` returns for `c` (Unicode Alphabetic or Numeric).
pub uninterp spec fn alphanumeric(c: char) -> bool;

pub open spec fn is_ascii(c: char) -> bool {
    (c as u32) < 128
}

pub open spec fn is_digit(c: char) -> bool {
    '0' <= c && c <= '9'
}

pub open spec fn is_ascii_letter(c: char) -> bool {
    ('a' <= c && c <= 'z') || ('A' <= c && c <= 'Z')
}

/// A character that begins an identifier: a letter or an underscore.
pub open spec fn ident_start(c: char) -> bool {
    c == '_' || if is_ascii(c) {
        is_ascii_letter(c)
    } else {
        alphabetic(c)
    }
}

/// A character that continues an identifier: a letter, a digit or an underscore.
pub open spec fn ident_continue(c: char) -> bool {
    c == '_' || if is_ascii(c) {
        is_ascii_letter(c) || is_digit(c)
    } else {
        alphanumeric(c)
    }
}

/// Number of newlines among the first `i` characters.
pub open spec fn newlines(src: Seq<char>, i: int) -> nat
    decreases i,
{
    if i <= 0 || i > src.len() {
        0
    } else {
        newlines(src, i - 1) + if src[i - 1] == '\n' {
            1nat
        } else {
            0nat
        }
    }
}

/// The 1-based line that position `i` lies on.
pub open spec fn line_at(src: Seq<char>, i: int) -> int {
    1 + newlines(src, i) as int
}

/// End of the maximal run of ASCII digits starting at `i`.
pub open spec fn digits_end(src: Seq<char>, i: int) -> int
    decreases src.len() - i,
{
    if 0 <= i < src.len() && is_digit(src[i]) {
        digits_end(src, i + 1)
    } else {
        i
    }
}

/// End of the maximal run of identifier characters starting at `i`.
pub open spec fn ident_end(src: Seq<char>, i: int) -> int
    decreases src.len() - i,
{
    if 0 <= i < src.len() && ident_continue(src[i]) {
        ident_end(src, i + 1)
    } else {
        i
    }
}

/// Position of the first `stop` at or after `i`, or the length of `src`.
pub open spec fn find_from(src: Seq<char>, i: int, stop: char) -> int
    decreases src.len() - i,
{
    if 0 <= i < src.len() && src[i] != stop {
        find_from(src, i + 1, stop)
    } else {
        i
    }
}

/// End of the number literal whose first digit is at `start`: a digit run,
/// then a dot and a second digit run only when a digit follows the dot.
pub open spec fn number_end(src: Seq<char>, start: int) -> int {
    let a = digits_end(src, start + 1);
    if a + 1 < src.len() && src[a] == '.' && is_digit(src[a + 1]) {
        digits_end(src, a + 1)
    } else {
        a
    }
}

/// `w` is the text of a number literal: a run of digits, optionally
/// followed by a dot and a second, non-empty run of digits.
pub open spec fn number_text(w: Seq<char>) -> bool {
    let k = digits_end(w, 0);
    &&& 0 < k
    &&& (k == w.len() || (w[k] == '.' && k + 1 < w.len() && digits_end(w, k + 1) == w.len()))
}

/// The reserved word spelled by `w`, if any; matching is exact and case-sensitive.
pub open spec fn keyword(w: Seq<char>) -> Option<TokenType> {
    if w == seq!['a', 'n', 'd'] {
        Some(TokenType::And)
    } else if w == seq!['c', 'l', 'a', 's', 's'] {
        Some(TokenType::Class)
    } else if w == seq!['e', 'l', 's', 'e'] {
        Some(TokenType::Else)
    } else if w == seq!['f', 'a', 'l', 's', 'e'] {
        Some(TokenType::False)
    } else if w == seq!['f', 'o', 'r'] {
        Some(TokenType::For)
    } else if w == seq!['f', 'u', 'n'] {
        Some(TokenType::Fun)
    } else if w == seq!['i', 'f'] {
        Some(TokenType::If)
    } else if w == seq!['n', 'i', 'l'] {
        Some(TokenType::Nil)
    } else if w == seq!['o', 'r'] {
        Some(TokenType::Or)
    } else if w == seq!['p', 'r', 'i', 'n', 't'] {
        Some(TokenType::Print)
    } else if w == seq!['r', 'e', 't', 'u', 'r', 'n'] {
        Some(TokenType::Return)
    } else if w == seq!['s', 'u', 'p', 'e', 'r'] {
        Some(TokenType::Super)
    } else if w == seq!['t', 'h', 'i', 's'] {
        Some(TokenType::This)
    } else if w == seq!['t', 'r', 'u', 'e'] {
        Some(TokenType::True)
    } else if w == seq!['v', 'a', 'r'] {
        Some(TokenType::Var)
    } else if w == seq!['w', 'h', 'i', 'l', 'e'] {
        Some(TokenType::While)
    } else {
        None
    }
}

/// The kind of an identifier-shaped word: its reserved word, else a plain identifier.
pub open spec fn word_kind(w: Seq<char>) -> TokenType {
    match keyword(w) {
        Some(k) => k,
        None => TokenType::Identifier,
    }
}

/// The kind of a single-character punctuation token.
pub open spec fn single_kind(c: char) -> Option<TokenType> {
    if c == '(' {
        Some(TokenType::LeftParen)
    } else if c == ')' {
        Some(TokenType::RightParen)
    } else if c == '{' {
        Some(TokenType::LeftBrace)
    } else if c == '}' {
        Some(TokenType::RightBrace)
    } else if c == ',' {
        Some(TokenType::Comma)
    } else if c == '.' {
        Some(TokenType::Dot)
    } else if c == '-' {
        Some(TokenType::Minus)
    } else if c == '+' {
        Some(TokenType::Plus)
    } else if c == ';' {
        Some(TokenType::Semicolon)
    } else if c == '*' {
        Some(TokenType::Star)
    } else {
        None
    }
}

/// The kind of an operator that may be followed by `=`; `eq` says whether it was.
pub open spec fn operator_kind(c: char, eq: bool) -> Option<TokenType> {
    if c == '!' {
        Some(if eq { TokenType::BangEqual } else { TokenType::Bang })
    } else if c == '=' {
        Some(if eq { TokenType::EqualEqual } else { TokenType::Equal })
    } else if c == '<' {
        Some(if eq { TokenType::LessEqual } else { TokenType::Less })
    } else if c == '>' {
        Some(if eq { TokenType::GreaterEqual } else { TokenType::Greater })
    } else {
        None
    }
}

pub open spec fn is_blank(c: char) -> bool {
    c == ' ' || c == '\r' || c == '\t' || c == '\n'
}

/// What recognizing one lexical unit does: where it ends, the token it
/// emits and the error it reports (on the line of `end`).
pub ghost struct Unit {
    pub end: int,
    pub token: Option<TokenModel>,
    pub error: Option<ScanError>,
}

pub open spec fn plain(src: Seq<char>, start: int, end: int, kind: TokenType) -> Unit {
    Unit {
        end,
        token: Some(TokenModel { kind, lexeme: src.subrange(start, end), literal: None }),
        error: None,
    }
}

/// The lexical unit that begins at `start` (where `0 <= start < src.len()`).
pub open spec fn unit(src: Seq<char>, start: int) -> Unit {
    let c = src[start];
    let eq = start + 1 < src.len() && src[start + 1] == '=';
    if single_kind(c) is Some {
        plain(src, start, start + 1, single_kind(c)->0)
    } else if operator_kind(c, eq) is Some {
        plain(src, start, if eq { start + 2 } else { start + 1 }, operator_kind(c, eq)->0)
    } else if c == '/' {
        if start + 1 < src.len() && src[start + 1] == '/' {
            Unit { end: find_from(src, start + 2, '\n'), token: None, error: None }
        } else {
            plain(src, start, start + 1, TokenType::Slash)
        }
    } else if is_blank(c) {
        Unit { end: start + 1, token: None, error: None }
    } else if c == '"' {
        let q = find_from(src, start + 1, '"');
        if q >= src.len() {
            Unit { end: q, token: None, error: Some(ScanError::UnterminatedString) }
        } else {
            Unit {
                end: q + 1,
                token: Some(
                    TokenModel {
                        kind: TokenType::String,
                        lexeme: src.subrange(start, q + 1),
                        literal: Some(LiteralModel::Str(src.subrange(start + 1, q))),
                    },
                ),
                error: None,
            }
        }
    } else if is_digit(c) {
        let e = number_end(src, start);
        if !number_text(src.subrange(start, e)) {
            Unit { end: e, token: None, error: Some(ScanError::InvalidNumber) }
        } else {
        Unit {
            end: e,
            token: Some(
                TokenModel {
                    kind: TokenType::Number,
                    lexeme: src.subrange(start, e),
                    literal: Some(LiteralModel::Number(src.subrange(start, e))),
                },
            ),
            error: None,
        }
        }
    } else if ident_start(c) {
        let e = ident_end(src, start + 1);
        plain(src, start, e, word_kind(src.subrange(start, e)))
    } else {
        Unit { end: start + 1, token: None, error: Some(ScanError::UnexpectedCharacter) }
    }
}

pub open spec fn option_seq<A>(o: Option<A>) -> Seq<A> {
    match o {
        Some(x) => seq![x],
        None => seq![],
    }
}

/// The tokens emitted and the errors (with their lines) reported while
/// scanning `src` from position `pos` to its end.
pub open spec fn scan_from(src: Seq<char>, pos: int) -> (Seq<TokenModel>, Seq<(int, ScanError)>)
    decreases src.len() - pos,
{
    if pos < 0 || pos >= src.len() {
        (seq![], seq![])
    } else {
        let u = unit(src, pos);
        if u.end <= pos || u.end > src.len() {
            (seq![], seq![])
        } else {
            let rest = scan_from(src, u.end);
            (
                option_seq(u.token) + rest.0,
                option_seq(match u.error {
                    Some(e) => Some((line_at(src, u.end), e)),
                    None => None,
                }) + rest.1,
            )
        }
    }
}

pub open spec fn eof_token() -> TokenModel {
    TokenModel { kind: TokenType::EOF, lexeme: seq![], literal: None }
}

/// The whole token sequence of `src`, ending in the end-of-input token.
pub open spec fn scan_all(src: Seq<char>) -> Seq<TokenModel> {
    scan_from(src, 0).0.push(eof_token())
}

/// The errors reported while scanning `src`, with their lines.
pub open spec fn scan_errors(src: Seq<char>) -> Seq<(int, ScanError)> {
    scan_from(src, 0).1
}

pub proof fn lemma_digits_end(src: Seq<char>, i: int)
    requires
        0 <= i <= src.len(),
    ensures
        i <= digits_end(src, i) <= src.len(),
    decreases src.len() - i,
{
    if i < src.len() && is_digit(src[i]) {
        lemma_digits_end(src, i + 1);
    }
}

pub proof fn lemma_ident_end(src: Seq<char>, i: int)
    requires
        0 <= i <= src.len(),
    ensures
        i <= ident_end(src, i) <= src.len(),
    decreases src.len() - i,
{
    if i < src.len() && ident_continue(src[i]) {
        lemma_ident_end(src, i + 1);
    }
}

pub proof fn lemma_find_from(src: Seq<char>, i: int, stop: char)
    requires
        0 <= i <= src.len(),
    ensures
        i <= find_from(src, i, stop) <= src.len(),
        find_from(src, i, stop) < src.len() ==> src[find_from(src, i, stop)] == stop,
    decreases src.len() - i,
{
    if i < src.len() && src[i] != stop {
        lemma_find_from(src, i + 1, stop);
    }
}

/// Each unit consumes at least one character and stays within the input.
pub proof fn lemma_unit_advances(src: Seq<char>, start: int)
    requires
        0 <= start < src.len(),
    ensures
        start < unit(src, start).end <= src.len(),
{
    lemma_digits_end(src, start + 1);
    let a = digits_end(src, start + 1);
    if 0 <= a && a + 1 < src.len() {
        lemma_digits_end(src, a + 1);
    }
    lemma_ident_end(src, start + 1);
    if start + 2 <= src.len() {
        lemma_find_from(src, start + 2, '\n');
    }
    lemma_find_from(src, start + 1, '"');
}

} // verus!
