use vstd::prelude::*;

use crate::grammar::{
    digits_end, eof_token, find_from, ident_continue, ident_end, ident_start, is_digit, keyword,
    lemma_digits_end, lemma_find_from, lemma_ident_end, lemma_unit_advances, line_at, newlines,
    number_end, number_text, option_seq, scan_all, scan_errors, scan_from, unit, word_kind,
};
use crate::report::ScanError;
use crate::token::{LiteralModel, TokenModel, TokenType};

verus! {

/// Unfolds the scan at `pos` by one unit.
proof fn lemma_scan_step(src: Seq<char>, pos: int)
    requires
        0 <= pos < src.len(),
    ensures
        scan_from(src, pos).0 == option_seq(unit(src, pos).token) + scan_from(
            src,
            unit(src, pos).end,
        ).0,
        scan_from(src, pos).1 == option_seq(
            match unit(src, pos).error {
                Some(e) => Some((line_at(src, unit(src, pos).end), e)),
                None => None,
            },
        ) + scan_from(src, unit(src, pos).end).1,
{
    lemma_unit_advances(src, pos);
}

/// Every scan ends in exactly one end-of-input token, with an empty
/// lexeme and no literal, and no other token has that kind.
pub proof fn lemma_ends_with_eof(src: Seq<char>)
    ensures
        scan_all(src).len() >= 1,
        scan_all(src).last() == eof_token(),
        scan_all(src).last().lexeme.len() == 0,
        scan_all(src).last().literal is None,
{
}

/// `!` followed by `=` is one `!=` token; `!` followed by anything else
/// (or by nothing) is a `!` token, and scanning goes on with the next
/// character.
pub proof fn lemma_bang(src: Seq<char>, pos: int)
    requires
        0 <= pos < src.len(),
        src[pos] == '!',
    ensures
        pos + 1 < src.len() && src[pos + 1] == '=' ==> scan_from(src, pos).0 == seq![
            TokenModel {
                kind: TokenType::BangEqual,
                lexeme: seq!['!', '='],
                literal: None,
            },
        ] + scan_from(src, pos + 2).0,
        !(pos + 1 < src.len() && src[pos + 1] == '=') ==> scan_from(src, pos).0 == seq![
            TokenModel { kind: TokenType::Bang, lexeme: seq!['!'], literal: None },
        ] + scan_from(src, pos + 1).0,
{
    lemma_scan_step(src, pos);
    if pos + 1 < src.len() && src[pos + 1] == '=' {
        assert(src.subrange(pos, pos + 2) =~= seq!['!', '=']);
    } else {
        assert(src.subrange(pos, pos + 1) =~= seq!['!']);
    }
}

/// A character that begins no lexeme is skipped: it adds no token and
/// exactly one "unexpected character" error on its own line, and scanning
/// resumes with the next character.
pub proof fn lemma_unexpected_skipped(src: Seq<char>, pos: int)
    requires
        0 <= pos < src.len(),
        unit(src, pos).error == Some(ScanError::UnexpectedCharacter),
    ensures
        scan_from(src, pos).0 == scan_from(src, pos + 1).0,
        scan_from(src, pos).1 == seq![(line_at(src, pos), ScanError::UnexpectedCharacter)]
            + scan_from(src, pos + 1).1,
{
    lemma_scan_step(src, pos);
    assert(seq![] + scan_from(src, pos + 1).0 =~= scan_from(src, pos + 1).0);
    assert(line_at(src, pos + 1) == line_at(src, pos));
}

/// `@` begins no lexeme.
pub proof fn lemma_at_sign_unexpected(src: Seq<char>, pos: int)
    requires
        0 <= pos < src.len(),
        src[pos] == '@',
    ensures
        unit(src, pos).error == Some(ScanError::UnexpectedCharacter),
        unit(src, pos).token is None,
        unit(src, pos).end == pos + 1,
{
}

/// Shape of an identifier: a letter or underscore, then letters, digits
/// and underscores.
pub open spec fn word_shaped(w: Seq<char>) -> bool {
    &&& w.len() > 0
    &&& ident_start(w[0])
    &&& !is_digit(w[0])
    &&& forall|i: int| 0 <= i < w.len() ==> ident_continue(#[trigger] w[i])
}

proof fn lemma_ident_end_all(w: Seq<char>, i: int)
    requires
        0 <= i <= w.len(),
        forall|j: int| 0 <= j < w.len() ==> ident_continue(#[trigger] w[j]),
    ensures
        ident_end(w, i) == w.len(),
    decreases w.len() - i,
{
    if i < w.len() {
        lemma_ident_end_all(w, i + 1);
    }
}

/// An identifier-shaped word scanned alone is one token: its reserved-word
/// kind if it spells one, else a plain identifier; it carries no literal.
pub proof fn lemma_word_alone(w: Seq<char>)
    requires
        word_shaped(w),
    ensures
        scan_all(w) == seq![
            TokenModel { kind: word_kind(w), lexeme: w, literal: None },
            eof_token(),
        ],
        scan_errors(w).len() == 0,
{
    lemma_ident_end_all(w, 1);
    lemma_scan_step(w, 0);
    assert(w.subrange(0, w.len() as int) =~= w);
    assert(scan_all(w) =~= seq![
        TokenModel { kind: word_kind(w), lexeme: w, literal: None },
        eof_token(),
    ]);
}

pub open spec fn is_lowercase_letter(c: char) -> bool {
    'a' <= c && c <= 'z'
}

/// Every reserved word is spelled in lowercase letters.
pub proof fn lemma_keywords_lowercase(w: Seq<char>)
    requires
        keyword(w) is Some,
    ensures
        w.len() > 0,
        forall|i: int| 0 <= i < w.len() ==> is_lowercase_letter(#[trigger] w[i]),
{
}

/// Each reserved word scanned alone is exactly one token of its own
/// keyword kind, with no literal.
pub proof fn lemma_keyword_alone(w: Seq<char>)
    requires
        keyword(w) is Some,
    ensures
        scan_all(w) == seq![
            TokenModel { kind: keyword(w)->0, lexeme: w, literal: None },
            eof_token(),
        ],
        scan_errors(w).len() == 0,
{
    lemma_keywords_lowercase(w);
    assert(word_shaped(w));
    lemma_word_alone(w);
}

/// Reserved words match case-sensitively: an identifier-shaped word with
/// an uppercase letter in it scans as a plain identifier.
pub proof fn lemma_keywords_case_sensitive(w: Seq<char>, i: int)
    requires
        word_shaped(w),
        0 <= i < w.len(),
        'A' <= w[i] && w[i] <= 'Z',
    ensures
        keyword(w) is None,
        scan_all(w) == seq![
            TokenModel { kind: TokenType::Identifier, lexeme: w, literal: None },
            eof_token(),
        ],
{
    if keyword(w) is Some {
        lemma_keywords_lowercase(w);
        assert(is_lowercase_letter(w[i]));
    }
    lemma_word_alone(w);
}

/// The source span `(start, end)` of each token that the scan from `pos`
/// emits, in order.
pub open spec fn token_spans(src: Seq<char>, pos: int) -> Seq<(int, int)>
    decreases src.len() - pos,
{
    if pos < 0 || pos >= src.len() {
        seq![]
    } else {
        let u = unit(src, pos);
        if u.end <= pos || u.end > src.len() {
            seq![]
        } else {
            option_seq(
                match u.token {
                    Some(t) => Some((pos, u.end)),
                    None => None,
                },
            ) + token_spans(src, u.end)
        }
    }
}

proof fn lemma_unit_lexeme(src: Seq<char>, pos: int)
    requires
        0 <= pos < src.len(),
        unit(src, pos).token is Some,
    ensures
        unit(src, pos).token->0.lexeme == src.subrange(pos, unit(src, pos).end),
{
}

/// Tokens come from the source in order: each token other than the
/// end-of-input one is the text of a non-empty span of the source, and the
/// spans of any two tokens are disjoint, the earlier token's span lying
/// wholly before the later one's.
#[verifier::spinoff_prover]
pub proof fn lemma_token_spans(src: Seq<char>, pos: int)
    requires
        0 <= pos <= src.len(),
    ensures
        token_spans(src, pos).len() == scan_from(src, pos).0.len(),
        forall|i: int|
            0 <= i < token_spans(src, pos).len() ==> {
                let sp = #[trigger] token_spans(src, pos)[i];
                &&& pos <= sp.0 < sp.1 <= src.len()
                &&& scan_from(src, pos).0[i].lexeme == src.subrange(sp.0, sp.1)
            },
        forall|i: int, j: int|
            0 <= i < j < token_spans(src, pos).len() ==> (#[trigger] token_spans(src, pos)[i]).1
                <= (#[trigger] token_spans(src, pos)[j]).0,
    decreases src.len() - pos,
{
    if pos < src.len() {
        let u = unit(src, pos);
        lemma_unit_advances(src, pos);
        lemma_scan_step(src, pos);
        lemma_token_spans(src, u.end);
        let rest = token_spans(src, u.end);
        let toks = scan_from(src, u.end).0;
        let sp = token_spans(src, pos);
        if u.token is Some {
            lemma_unit_lexeme(src, pos);
            assert(sp == seq![(pos, u.end)] + rest);
            assert(scan_from(src, pos).0 == seq![u.token->0] + toks);
            assert forall|i: int| 0 < i < sp.len() implies sp[i] == rest[i - 1] by {}
            assert forall|i: int| 0 < i < sp.len() implies scan_from(src, pos).0[i] == toks[i - 1] by {}
            assert forall|i: int, j: int| 0 <= i < j < sp.len() implies (#[trigger] sp[i]).1 <= (#[trigger] sp[j]).0 by {
                if i > 0 {
                    assert(sp[i] == rest[i - 1]);
                    assert(sp[j] == rest[j - 1]);
                } else {
                    assert(sp[j] == rest[j - 1]);
                }
            }
        } else {
            assert(sp =~= rest);
            assert(scan_from(src, pos).0 =~= toks);
        }
    }
}

proof fn lemma_digits_shift(p: Seq<char>, s: Seq<char>, k: int)
    requires
        0 <= k <= s.len(),
    ensures
        digits_end(p + s, k + p.len()) == digits_end(s, k) + p.len(),
    decreases s.len() - k,
{
    if k < s.len() {
        assert((p + s)[k + p.len()] == s[k]);
        lemma_digits_shift(p, s, k + 1);
    }
}

proof fn lemma_ident_shift(p: Seq<char>, s: Seq<char>, k: int)
    requires
        0 <= k <= s.len(),
    ensures
        ident_end(p + s, k + p.len()) == ident_end(s, k) + p.len(),
    decreases s.len() - k,
{
    if k < s.len() {
        assert((p + s)[k + p.len()] == s[k]);
        lemma_ident_shift(p, s, k + 1);
    }
}

proof fn lemma_find_shift(p: Seq<char>, s: Seq<char>, k: int, stop: char)
    requires
        0 <= k <= s.len(),
    ensures
        find_from(p + s, k + p.len(), stop) == find_from(s, k, stop) + p.len(),
    decreases s.len() - k,
{
    if k < s.len() {
        assert((p + s)[k + p.len()] == s[k]);
        lemma_find_shift(p, s, k + 1, stop);
    }
}

proof fn lemma_newlines_prefix(p: Seq<char>, s: Seq<char>, i: int)
    requires
        0 <= i <= p.len(),
    ensures
        newlines(p + s, i) == newlines(p, i),
    decreases i,
{
    if i > 0 {
        assert((p + s)[i - 1] == p[i - 1]);
        lemma_newlines_prefix(p, s, i - 1);
    }
}

proof fn lemma_newlines_shift(p: Seq<char>, s: Seq<char>, k: int)
    requires
        0 <= k <= s.len(),
    ensures
        newlines(p + s, k + p.len()) == newlines(p, p.len() as int) + newlines(s, k),
    decreases k,
{
    if k == 0 {
        lemma_newlines_prefix(p, s, p.len() as int);
    } else {
        assert((p + s)[k - 1 + p.len()] == s[k - 1]);
        lemma_newlines_shift(p, s, k - 1);
    }
}

proof fn lemma_subrange_shift(p: Seq<char>, s: Seq<char>, a: int, b: int)
    requires
        0 <= a <= b <= s.len(),
    ensures
        (p + s).subrange(a + p.len(), b + p.len()) == s.subrange(a, b),
{
    assert((p + s).subrange(a + p.len(), b + p.len()) =~= s.subrange(a, b));
}

/// A unit is recognized from the characters at and after its start alone.
#[verifier::spinoff_prover]
proof fn lemma_unit_shift(p: Seq<char>, s: Seq<char>, k: int)
    requires
        0 <= k < s.len(),
    ensures
        unit(p + s, k + p.len()).end == unit(s, k).end + p.len(),
        unit(p + s, k + p.len()).token == unit(s, k).token,
        unit(p + s, k + p.len()).error == unit(s, k).error,
{
    let t = p + s;
    let n = p.len() as int;
    assert(t[k + n] == s[k]);
    if k + 1 < s.len() {
        assert(t[k + 1 + n] == s[k + 1]);
    }
    lemma_unit_advances(s, k);
    lemma_subrange_shift(p, s, k, k + 1);
    if k + 2 <= s.len() {
        lemma_subrange_shift(p, s, k, k + 2);
        lemma_find_shift(p, s, k + 2, '\n');
    }
    lemma_find_shift(p, s, k + 1, '"');
    lemma_find_from(s, k + 1, '"');
    let q = find_from(s, k + 1, '"');
    if q < s.len() {
        lemma_subrange_shift(p, s, k, q + 1);
        lemma_subrange_shift(p, s, k + 1, q);
    }
    lemma_digits_shift(p, s, k + 1);
    lemma_digits_end(s, k + 1);
    let a = digits_end(s, k + 1);
    assert(digits_end(t, k + n + 1) == a + n);
    if a + 1 < s.len() {
        assert(t[a + n] == s[a]);
        assert(t[a + 1 + n] == s[a + 1]);
        lemma_digits_shift(p, s, a + 1);
        lemma_digits_end(s, a + 1);
        lemma_subrange_shift(p, s, k, digits_end(s, a + 1));
    }
    lemma_subrange_shift(p, s, k, a);
    lemma_ident_shift(p, s, k + 1);
    lemma_ident_end(s, k + 1);
    lemma_subrange_shift(p, s, k, ident_end(s, k + 1));
}

/// Lines shifted by `d`.
pub open spec fn shift_lines(errs: Seq<(int, ScanError)>, d: int) -> Seq<(int, ScanError)> {
    errs.map_values(|e: (int, ScanError)| (e.0 + d, e.1))
}

/// Scanning `s` behind a prefix `p`, from a position of `s` onwards, gives
/// the tokens that scanning `s` alone gives, and the same errors with their
/// lines moved down by the newlines of `p`.
#[verifier::spinoff_prover]
pub proof fn lemma_scan_shift(p: Seq<char>, s: Seq<char>, k: int)
    requires
        0 <= k <= s.len(),
    ensures
        scan_from(p + s, k + p.len()).0 == scan_from(s, k).0,
        scan_from(p + s, k + p.len()).1 == shift_lines(
            scan_from(s, k).1,
            newlines(p, p.len() as int) as int,
        ),
    decreases s.len() - k,
{
    let t = p + s;
    let n = p.len() as int;
    let d = newlines(p, n) as int;
    if k < s.len() {
        let u = unit(s, k);
        lemma_unit_shift(p, s, k);
        lemma_unit_advances(s, k);
        lemma_scan_step(s, k);
        lemma_scan_step(t, k + n);
        lemma_scan_shift(p, s, u.end);
        lemma_newlines_shift(p, s, u.end);
        let head = option_seq(
            match u.error {
                Some(e) => Some((line_at(s, u.end), e)),
                None => None,
            },
        );
        let rest = scan_from(s, u.end).1;
        assert(shift_lines(head + rest, d) =~= shift_lines(head, d) + shift_lines(rest, d));
        assert(shift_lines(head, d) =~= option_seq(
            match u.error {
                Some(e) => Some((line_at(t, u.end + n), e)),
                None => None,
            },
        ));
    } else {
        assert(shift_lines(seq![], d) =~= seq![]);
    }
}

/// An unexpected `@` at the front of the input changes no token: the
/// tokens are those of the input with the `@` deleted, and the only
/// difference is one "unexpected character" error on line 1.
pub proof fn lemma_at_sign_as_if_deleted(s: Seq<char>)
    ensures
        scan_all(seq!['@'] + s) == scan_all(s),
        scan_errors(seq!['@'] + s) == seq![(1int, ScanError::UnexpectedCharacter)] + scan_errors(s),
{
    let p = seq!['@'];
    let t = p + s;
    assert(t[0] == '@');
    lemma_at_sign_unexpected(t, 0);
    lemma_unexpected_skipped(t, 0);
    lemma_scan_shift(p, s, 0);
    assert(p[0] == '@');
    assert(newlines(p, 0) == 0);
    assert(newlines(p, 1) == 0);
    assert(shift_lines(scan_from(s, 0).1, 0) =~= scan_from(s, 0).1);
    assert(line_at(t, 0) == 1);
}

/// The line of a position is one more than the number of newlines before
/// it, whatever consumed them (blanks, string literals or comments); the
/// scanner's line counter and every reported error line are of this form.
pub proof fn lemma_line_counts_newlines(src: Seq<char>, i: int)
    requires
        0 <= i <= src.len(),
    ensures
        line_at(src, i) == 1 + src.take(i).filter(|c: char| c == '\n').len(),
    decreases i,
{
    reveal(Seq::filter);
    if i > 0 {
        lemma_line_counts_newlines(src, i - 1);
        assert(src.take(i).drop_last() =~= src.take(i - 1));
        assert(src.take(i).last() == src[i - 1]);
    } else {
        assert(src.take(0).len() == 0);
    }
}

proof fn lemma_digits_end_within(src: Seq<char>, lo: int, hi: int, i: int)
    requires
        0 <= lo <= i <= hi <= src.len(),
    ensures
        digits_end(src.subrange(lo, hi), i - lo) == (if digits_end(src, i) < hi {
            digits_end(src, i)
        } else {
            hi
        }) - lo,
    decreases hi - i,
{
    lemma_digits_end(src, i);
    if i < hi {
        assert(src.subrange(lo, hi)[i - lo] == src[i]);
        lemma_digits_end_within(src, lo, hi, i + 1);
    }
}

/// The text a number unit consumes always has the shape of a number
/// literal, so the scanner never reports an invalid numeric literal.
pub proof fn lemma_numbers_well_formed(src: Seq<char>, start: int)
    requires
        0 <= start < src.len(),
    ensures
        is_digit(src[start]) ==> number_text(src.subrange(start, number_end(src, start))),
        unit(src, start).error != Some(ScanError::InvalidNumber),
{
    if is_digit(src[start]) {
        let a = digits_end(src, start + 1);
        lemma_digits_end(src, start + 1);
        let e = number_end(src, start);
        let w = src.subrange(start, e);
        assert(digits_end(src, start) == a);
        if a + 1 < src.len() && src[a] == '.' && is_digit(src[a + 1]) {
            lemma_digits_end(src, a + 2);
            assert(digits_end(src, a + 1) == digits_end(src, a + 2));
            lemma_digits_end_within(src, start, e, start);
            lemma_digits_end_within(src, start, e, a + 1);
            assert(w[a - start] == src[a]);
        } else {
            lemma_digits_end_within(src, start, e, start);
        }
    }
}

proof fn lemma_find_past(t: Seq<char>, i: int, stop: char, end: int)
    requires
        0 <= i <= end <= t.len(),
        forall|j: int| i <= j < end ==> t[j] != stop,
        end == t.len() || t[end] == stop,
    ensures
        find_from(t, i, stop) == end,
    decreases end - i,
{
    if i < end {
        lemma_find_past(t, i + 1, stop, end);
    }
}

/// A quoted text with no quote inside scans as one string token whose
/// literal is the text between the quotes, with no error.
pub proof fn lemma_string_alone(body: Seq<char>)
    requires
        forall|i: int| 0 <= i < body.len() ==> body[i] != '"',
    ensures
        scan_all(seq!['"'] + body + seq!['"']) == seq![
            TokenModel {
                kind: TokenType::String,
                lexeme: seq!['"'] + body + seq!['"'],
                literal: Some(LiteralModel::Str(body)),
            },
            eof_token(),
        ],
        scan_errors(seq!['"'] + body + seq!['"']).len() == 0,
{
    let t = seq!['"'] + body + seq!['"'];
    let n = body.len() as int;
    assert(t[0] == '"');
    assert(t[n + 1] == '"');
    assert forall|j: int| 1 <= j < n + 1 implies t[j] != '"' by {
        assert(t[j] == body[j - 1]);
    }
    lemma_find_past(t, 1, '"', n + 1);
    lemma_scan_step(t, 0);
    assert(t.subrange(0, n + 2) =~= t);
    assert(t.subrange(1, n + 1) =~= body);
    assert(scan_all(t) =~= seq![
        TokenModel {
            kind: TokenType::String,
            lexeme: t,
            literal: Some(LiteralModel::Str(body)),
        },
        eof_token(),
    ]);
}

/// A quote with no closing quote after it yields no token and exactly one
/// "unterminated string" error, on the line where the input ends.
pub proof fn lemma_unterminated_string(body: Seq<char>)
    requires
        forall|i: int| 0 <= i < body.len() ==> body[i] != '"',
    ensures
        scan_all(seq!['"'] + body) == seq![eof_token()],
        scan_errors(seq!['"'] + body) == seq![
            (line_at(seq!['"'] + body, body.len() + 1int), ScanError::UnterminatedString),
        ],
{
    let t = seq!['"'] + body;
    let n = body.len() as int;
    assert(t[0] == '"');
    assert forall|j: int| 1 <= j < n + 1 implies t[j] != '"' by {
        assert(t[j] == body[j - 1]);
    }
    lemma_find_past(t, 1, '"', n + 1);
    lemma_scan_step(t, 0);
    assert(scan_all(t) =~= seq![eof_token()]);
    assert(scan_errors(t) =~= seq![(line_at(t, n + 1), ScanError::UnterminatedString)]);
}

proof fn lemma_no_newlines(p: Seq<char>, i: int)
    requires
        0 <= i <= p.len(),
        forall|j: int| 0 <= j < i ==> p[j] != '\n',
    ensures
        newlines(p, i) == 0,
    decreases i,
{
    if i > 0 {
        lemma_no_newlines(p, i - 1);
    }
}

/// A line comment, ended by its newline, adds no token and no error: what
/// follows scans as it would alone, its lines one further down.
pub proof fn lemma_comment_skipped(text: Seq<char>, rest: Seq<char>)
    requires
        forall|i: int| 0 <= i < text.len() ==> text[i] != '\n',
    ensures
        scan_all(seq!['/', '/'] + text + seq!['\n'] + rest) == scan_all(rest),
        scan_errors(seq!['/', '/'] + text + seq!['\n'] + rest) == shift_lines(scan_errors(rest), 1),
{
    let p = seq!['/', '/'] + text + seq!['\n'];
    let t = p + rest;
    let n = text.len() as int;
    assert(t == seq!['/', '/'] + text + seq!['\n'] + rest);
    assert(p.len() == n + 3);
    assert(t[0] == '/');
    assert(t[1] == '/');
    assert(t[n + 2] == '\n');
    assert forall|j: int| 2 <= j < n + 2 implies t[j] != '\n' by {
        assert(t[j] == text[j - 2]);
    }
    lemma_find_past(t, 2, '\n', n + 2);
    lemma_scan_step(t, 0);
    lemma_scan_step(t, n + 2);
    lemma_scan_shift(p, rest, 0);
    assert forall|j: int| 0 <= j < n + 2 implies p[j] != '\n' by {
        if j >= 2 {
            assert(p[j] == text[j - 2]);
        }
    }
    lemma_no_newlines(p, n + 2);
    assert(p[n + 2] == '\n');
    assert(newlines(p, n + 3) == 1);
    assert(scan_from(t, 0).0 =~= scan_from(rest, 0).0);
    assert(scan_from(t, 0).1 =~= scan_from(t, n + 3).1);
}

} // verus!
