use vstd::prelude::*;

use crate::chars::{chars_of, is_alphabetic, is_alphanumeric, text_of};
use crate::grammar::{
    digits_end, find_from, ident_end, ident_start, is_digit, lemma_digits_end, lemma_find_from,
    lemma_ident_end, lemma_unit_advances, line_at, newlines, number_text, option_seq, scan_all,
    scan_from, unit, word_kind, Unit, single_kind, operator_kind, is_blank,
};
use crate::report::{diagnostics_view, error, ErrorReporter, ScanError};
use crate::token::{literal_view, tokens_view, Literal, Token, TokenModel, TokenType};

verus! {

/// The errors that the unit `u` reports, each with its line.
pub open spec fn unit_errors(src: Seq<char>, u: Unit) -> Seq<(int, ScanError)> {
    option_seq(
        match u.error {
            Some(e) => Some((line_at(src, u.end), e)),
            None => None,
        },
    )
}

/// The model of a token of `kind` whose lexeme is `src[start..end]`.
pub open spec fn span_token(
    src: Seq<char>,
    start: int,
    end: int,
    kind: TokenType,
    literal: Option<Literal>,
) -> TokenModel {
    TokenModel { kind, lexeme: src.subrange(start, end), literal: literal_view(literal) }
}

proof fn lemma_newlines_bound(src: Seq<char>, i: int)
    ensures
        newlines(src, i) <= if i < 0 { 0 } else { i },
    decreases i,
{
    if i > 0 && i <= src.len() {
        lemma_newlines_bound(src, i - 1);
    }
}

proof fn lemma_tokens_push(ts: Seq<Token>, t: Token)
    ensures
        tokens_view(ts.push(t)) == tokens_view(ts).push(t@),
{
    assert(tokens_view(ts.push(t)) =~= tokens_view(ts).push(t@));
}

/// Whether `src[start..end]` spells `word`.
fn span_is(src: &Vec<char>, start: usize, end: usize, word: &[char]) -> (r: bool)
    requires
        start <= end <= src@.len(),
    ensures
        r == (src@.subrange(start as int, end as int) == word@),
{
    if end - start != word.len() {
        proof {
            assert(src@.subrange(start as int, end as int).len() != word@.len());
        }
        return false;
    }
    let mut i: usize = 0;
    while i < word.len()
        invariant
            end - start == word@.len(),
            start <= end <= src@.len(),
            0 <= i <= word@.len(),
            forall|j: int| 0 <= j < i ==> src@[start + j] == word@[j],
        decreases word@.len() - i,
    {
        if src[start + i] != word[i] {
            proof {
                assert(src@.subrange(start as int, end as int)[i as int] != word@[i as int]);
            }
            return false;
        }
        i = i + 1;
    }
    proof {
        assert(src@.subrange(start as int, end as int) =~= word@);
    }
    true
}

/// The kind of the identifier-shaped word `src[start..end]`.
#[verifier::spinoff_prover]
fn word_kind_of(src: &Vec<char>, start: usize, end: usize) -> (r: TokenType)
    requires
        start <= end <= src@.len(),
    ensures
        r == word_kind(src@.subrange(start as int, end as int)),
{
    proof {
        assert(['a', 'n', 'd']@ == seq!['a', 'n', 'd']);
        assert(['c', 'l', 'a', 's', 's']@ == seq!['c', 'l', 'a', 's', 's']);
        assert(['e', 'l', 's', 'e']@ == seq!['e', 'l', 's', 'e']);
        assert(['f', 'a', 'l', 's', 'e']@ == seq!['f', 'a', 'l', 's', 'e']);
        assert(['f', 'o', 'r']@ == seq!['f', 'o', 'r']);
        assert(['f', 'u', 'n']@ == seq!['f', 'u', 'n']);
        assert(['i', 'f']@ == seq!['i', 'f']);
        assert(['n', 'i', 'l']@ == seq!['n', 'i', 'l']);
        assert(['o', 'r']@ == seq!['o', 'r']);
        assert(['p', 'r', 'i', 'n', 't']@ == seq!['p', 'r', 'i', 'n', 't']);
        assert(['r', 'e', 't', 'u', 'r', 'n']@ == seq!['r', 'e', 't', 'u', 'r', 'n']);
        assert(['s', 'u', 'p', 'e', 'r']@ == seq!['s', 'u', 'p', 'e', 'r']);
        assert(['t', 'h', 'i', 's']@ == seq!['t', 'h', 'i', 's']);
        assert(['t', 'r', 'u', 'e']@ == seq!['t', 'r', 'u', 'e']);
        assert(['v', 'a', 'r']@ == seq!['v', 'a', 'r']);
        assert(['w', 'h', 'i', 'l', 'e']@ == seq!['w', 'h', 'i', 'l', 'e']);
    }
    if span_is(src, start, end, &['a', 'n', 'd']) {
        TokenType::And
    } else if span_is(src, start, end, &['c', 'l', 'a', 's', 's']) {
        TokenType::Class
    } else if span_is(src, start, end, &['e', 'l', 's', 'e']) {
        TokenType::Else
    } else if span_is(src, start, end, &['f', 'a', 'l', 's', 'e']) {
        TokenType::False
    } else if span_is(src, start, end, &['f', 'o', 'r']) {
        TokenType::For
    } else if span_is(src, start, end, &['f', 'u', 'n']) {
        TokenType::Fun
    } else if span_is(src, start, end, &['i', 'f']) {
        TokenType::If
    } else if span_is(src, start, end, &['n', 'i', 'l']) {
        TokenType::Nil
    } else if span_is(src, start, end, &['o', 'r']) {
        TokenType::Or
    } else if span_is(src, start, end, &['p', 'r', 'i', 'n', 't']) {
        TokenType::Print
    } else if span_is(src, start, end, &['r', 'e', 't', 'u', 'r', 'n']) {
        TokenType::Return
    } else if span_is(src, start, end, &['s', 'u', 'p', 'e', 'r']) {
        TokenType::Super
    } else if span_is(src, start, end, &['t', 'h', 'i', 's']) {
        TokenType::This
    } else if span_is(src, start, end, &['t', 'r', 'u', 'e']) {
        TokenType::True
    } else if span_is(src, start, end, &['v', 'a', 'r']) {
        TokenType::Var
    } else if span_is(src, start, end, &['w', 'h', 'i', 'l', 'e']) {
        TokenType::While
    } else {
        TokenType::Identifier
    }
}

/// Whether `c` is an ASCII decimal digit, as `char::is_digit(10)` answers.
fn is_decimal_digit(c: char) -> (r: bool)
    ensures
        r == is_digit(c),
{
    '0' <= c && c <= '9'
}

/// Whether `src[start..end]` is the text of a number literal.
fn is_number_text(src: &Vec<char>, start: usize, end: usize) -> (r: bool)
    requires
        start <= end <= src@.len(),
    ensures
        r == number_text(src@.subrange(start as int, end as int)),
{
    let ghost w = src@.subrange(start as int, end as int);
    let mut i: usize = start;
    proof {
        lemma_digits_end(w, 0);
    }
    while i < end && is_decimal_digit(src[i])
        invariant
            start <= i <= end <= src@.len(),
            w == src@.subrange(start as int, end as int),
            digits_end(w, i - start) == digits_end(w, 0),
        decreases end - i,
    {
        i = i + 1;
    }
    if i == start {
        return false;
    }
    if i == end {
        return true;
    }
    if src[i] != '.' || i + 1 >= end {
        return false;
    }
    let k = i;
    i = i + 1;
    while i < end && is_decimal_digit(src[i])
        invariant
            start <= k < i <= end <= src@.len(),
            w == src@.subrange(start as int, end as int),
            digits_end(w, i - start) == digits_end(w, k + 1 - start),
        decreases end - i,
    {
        assert(w[i - start] == src@[i as int]);
        i = i + 1;
    }
    i == end
}

/// A single pass over one source text.
pub struct Scanner<'a> {
    pub source: Vec<char>,
    pub tokens: Vec<Token>,
    pub start: usize,
    pub current: usize,
    pub line_no: usize,
    pub finished: bool,
    pub error_reporter: &'a mut ErrorReporter,
}

impl<'a> Scanner<'a> {
    pub open spec fn src(&self) -> Seq<char> {
        self.source@
    }

    /// The cursors lie within the text, the line counter matches the
    /// newlines read so far, and the tokens emitted so far are the ones the
    /// model gives: the prefix of the whole sequence before `current`, or the
    /// whole sequence once the scan has finished.
    pub open spec fn consistent(&self) -> bool {
        &&& self.start <= self.current <= self.src().len() < usize::MAX
        &&& self.line_no == line_at(self.src(), self.current as int)
        &&& if self.finished {
            self.current == self.src().len() && tokens_view(self.tokens@) == scan_all(self.src())
        } else {
            tokens_view(self.tokens@) + scan_from(self.src(), self.current as int).0 == scan_from(
                self.src(),
                0,
            ).0
        }
    }

    /// Everything but the cursor `current` is as in `other`.
    pub open spec fn same_but_cursor(&self, other: &Self) -> bool {
        &&& self.source@ == other.source@
        &&& self.tokens@ == other.tokens@
        &&& self.start == other.start
        &&& self.line_no == other.line_no
        &&& self.finished == other.finished
        &&& *self.error_reporter == *other.error_reporter
    }

    pub fn new(source: String, error_reporter: &'a mut ErrorReporter) -> (r: Self)
        requires
            source@.len() < usize::MAX,
        ensures
            r.consistent(),
            r.src() == source@,
            r.current == 0,
            !r.finished,
            r.tokens@.len() == 0,
            *r.error_reporter == *old(error_reporter),
            *final(error_reporter) == *final(r.error_reporter),
    {
        let source = chars_of(source.as_str());
        let r = Scanner {
            source,
            tokens: Vec::new(),
            start: 0,
            current: 0,
            line_no: 1,
            finished: false,
            error_reporter,
        };
        assert(tokens_view(r.tokens@) =~= seq![]);
        assert(seq![] + scan_from(r.src(), 0).0 =~= scan_from(r.src(), 0).0);
        r
    }

    fn is_at_end(&self) -> (r: bool)
        ensures
            r == (self.current >= self.source@.len()),
    {
        self.current >= self.source.len()
    }

    fn advance(&mut self) -> (c: char)
        requires
            old(self).current < old(self).source@.len() < usize::MAX,
        ensures
            c == old(self).source@[old(self).current as int],
            final(self).current == old(self).current + 1,
            final(self).same_but_cursor(old(self)),
            *final(final(self).error_reporter) == *final(old(self).error_reporter),
    {
        let c = self.source[self.current];
        self.current = self.current + 1;
        c
    }

    fn add_token(&mut self, token_type: TokenType, literal: Option<Literal>)
        requires
            old(self).start <= old(self).current <= old(self).source@.len(),
        ensures
            tokens_view(final(self).tokens@) == tokens_view(old(self).tokens@).push(
                span_token(
                    old(self).src(),
                    old(self).start as int,
                    old(self).current as int,
                    token_type,
                    literal,
                ),
            ),
            final(self).source@ == old(self).source@,
            final(self).start == old(self).start,
            final(self).current == old(self).current,
            final(self).line_no == old(self).line_no,
            final(self).finished == old(self).finished,
            *final(self).error_reporter == *old(self).error_reporter,
            *final(final(self).error_reporter) == *final(old(self).error_reporter),
    {
        let text = text_of(self.source.as_slice(), self.start, self.current);
        let t = Token::new(token_type, text, literal);
        proof {
            lemma_tokens_push(self.tokens@, t);
        }
        self.tokens.push(t);
    }

    fn next_match(&mut self, expected: char) -> (r: bool)
        requires
            old(self).source@.len() < usize::MAX,
        ensures
            r == (old(self).current < old(self).source@.len()
                && old(self).source@[old(self).current as int] == expected),
            final(self).current == if r {
                old(self).current + 1
            } else {
                old(self).current as int
            },
            final(self).same_but_cursor(old(self)),
            *final(final(self).error_reporter) == *final(old(self).error_reporter),
    {
        if self.is_at_end() {
            return false;
        }
        if self.source[self.current] != expected {
            return false;
        }
        self.current = self.current + 1;
        true
    }

    fn peek(&self) -> (c: char)
        ensures
            self.current < self.source@.len() ==> c == self.source@[self.current as int],
            self.current >= self.source@.len() ==> c == '\0',
    {
        if self.is_at_end() {
            return '\0';
        }
        self.source[self.current]
    }

    fn peek_next(&self) -> (c: char)
        requires
            self.current < usize::MAX,
        ensures
            self.current + 1 < self.source@.len() ==> c == self.source@[self.current + 1],
            self.current + 1 >= self.source@.len() ==> c == '\0',
    {
        if self.current + 1 >= self.source.len() {
            return '\0';
        }
        self.source[self.current + 1]
    }

    /// `self` is `before` after recognizing the unit that begins at
    /// `before.start`: cursor past it, its token and its error recorded,
    /// and the line counter on the unit's last line.
    pub open spec fn did_unit(&self, before: &Self) -> bool {
        let u = unit(before.src(), before.start as int);
        &&& self.source@ == before.source@
        &&& self.start == before.start
        &&& self.finished == before.finished
        &&& self.current == u.end
        &&& self.line_no == line_at(self.src(), u.end)
        &&& tokens_view(self.tokens@) == tokens_view(before.tokens@) + option_seq(u.token)
        &&& diagnostics_view(self.error_reporter.diagnostics@) == diagnostics_view(
            before.error_reporter.diagnostics@,
        ) + unit_errors(self.src(), u)
        &&& self.error_reporter.had_error == (before.error_reporter.had_error || u.error is Some)
    }

    /// The state in which a sub-scanner takes over: the first character
    /// of the unit has been read.
    pub open spec fn after_first(&self) -> bool {
        &&& self.start < self.current == self.start + 1 <= self.src().len() < usize::MAX
        &&& self.line_no == line_at(self.src(), self.current as int)
    }

    #[verifier::spinoff_prover]
    fn string(&mut self)
        requires
            old(self).after_first(),
            old(self).src()[old(self).start as int] == '"',
        ensures
            final(self).did_unit(old(self)),
            *final(final(self).error_reporter) == *final(old(self).error_reporter),
    {
        let ghost src = self.src();
        let ghost q = find_from(src, self.start + 1, '"');
        proof {
            lemma_find_from(src, self.start + 1, '"');
        }
        while self.peek() != '"' && !self.is_at_end()
            invariant
                self.source@ == src,
                self.start < self.current <= src.len() < usize::MAX,
                self.current <= q,
                find_from(src, self.current as int, '"') == q,
                self.line_no == line_at(src, self.current as int),
                self.tokens@ == old(self).tokens@,
                self.start == old(self).start,
                self.finished == old(self).finished,
                *self.error_reporter == *old(self).error_reporter,
                *final(self.error_reporter) == *final(old(self).error_reporter),
            decreases src.len() - self.current,
        {
            proof {
                lemma_newlines_bound(src, self.current as int);
                lemma_find_from(src, self.current + 1, '"');
            }
            if self.peek() == '\n' {
                self.line_no = self.line_no + 1;
            }
            self.advance();
        }
        let ghost u = unit(src, self.start as int);
        if self.is_at_end() {
            error(self.error_reporter, self.line_no, ScanError::UnterminatedString);
            proof {
                assert(diagnostics_view(self.error_reporter.diagnostics@) =~= diagnostics_view(
                    old(self).error_reporter.diagnostics@,
                ) + unit_errors(src, u));
                assert(tokens_view(self.tokens@) =~= tokens_view(old(self).tokens@) + option_seq(
                    u.token,
                ));
            }
            return;
        }
        // the closing quote
        self.advance();
        let value = text_of(self.source.as_slice(), self.start + 1, self.current - 1);
        self.add_token(TokenType::String, Some(Literal::Str(value)));
        proof {
            assert(diagnostics_view(self.error_reporter.diagnostics@) =~= diagnostics_view(
                old(self).error_reporter.diagnostics@,
            ) + unit_errors(src, u));
            assert(tokens_view(self.tokens@) =~= tokens_view(old(self).tokens@) + option_seq(
                u.token,
            ));
        }
    }

    #[verifier::spinoff_prover]
    fn number(&mut self)
        requires
            old(self).after_first(),
            is_digit(old(self).src()[old(self).start as int]),
        ensures
            final(self).did_unit(old(self)),
            *final(final(self).error_reporter) == *final(old(self).error_reporter),
    {
        let ghost src = self.src();
        let ghost a = digits_end(src, self.start + 1);
        proof {
            lemma_digits_end(src, self.start + 1);
        }
        while is_decimal_digit(self.peek())
            invariant
                self.source@ == src,
                self.start < self.current <= a <= src.len() < usize::MAX,
                digits_end(src, self.current as int) == a,
                self.line_no == line_at(src, self.current as int),
                self.tokens@ == old(self).tokens@,
                self.start == old(self).start,
                self.finished == old(self).finished,
                *self.error_reporter == *old(self).error_reporter,
                *final(self.error_reporter) == *final(old(self).error_reporter),
            decreases src.len() - self.current,
        {
            proof {
                lemma_digits_end(src, self.current + 1);
            }
            self.advance();
        }
        if self.peek() == '.' && is_decimal_digit(self.peek_next()) {
            let ghost b = digits_end(src, a + 1);
            proof {
                lemma_digits_end(src, a + 1);
            }
            self.advance();
            while is_decimal_digit(self.peek())
                invariant
                    self.source@ == src,
                    a < self.current <= b <= src.len() < usize::MAX,
                    self.start < self.current,
                    digits_end(src, self.current as int) == b,
                    self.line_no == line_at(src, self.current as int),
                    self.tokens@ == old(self).tokens@,
                    self.start == old(self).start,
                    self.finished == old(self).finished,
                    *self.error_reporter == *old(self).error_reporter,
                    *final(self.error_reporter) == *final(old(self).error_reporter),
                decreases src.len() - self.current,
            {
                proof {
                    lemma_digits_end(src, self.current + 1);
                }
                self.advance();
            }
        }
        if !is_number_text(&self.source, self.start, self.current) {
            error(self.error_reporter, self.line_no, ScanError::InvalidNumber);
        } else {
            let value = text_of(self.source.as_slice(), self.start, self.current);
            self.add_token(TokenType::Number, Some(Literal::Number(value)));
        }
        proof {
            let u = unit(src, self.start as int);
            assert(diagnostics_view(self.error_reporter.diagnostics@) =~= diagnostics_view(
                old(self).error_reporter.diagnostics@,
            ) + unit_errors(src, u));
            assert(tokens_view(self.tokens@) =~= tokens_view(old(self).tokens@) + option_seq(
                u.token,
            ));
        }
    }

    fn identifier(&mut self)
        requires
            old(self).after_first(),
            ident_start(old(self).src()[old(self).start as int]),
            !is_digit(old(self).src()[old(self).start as int]),
        ensures
            final(self).did_unit(old(self)),
            *final(final(self).error_reporter) == *final(old(self).error_reporter),
    {
        let ghost src = self.src();
        let ghost e = ident_end(src, self.start + 1);
        proof {
            lemma_ident_end(src, self.start + 1);
        }
        while is_alphanumeric(self.peek()) || self.peek() == '_'
            invariant
                self.source@ == src,
                self.start < self.current <= e <= src.len() < usize::MAX,
                ident_end(src, self.current as int) == e,
                self.line_no == line_at(src, self.current as int),
                self.tokens@ == old(self).tokens@,
                self.start == old(self).start,
                self.finished == old(self).finished,
                *self.error_reporter == *old(self).error_reporter,
                *final(self.error_reporter) == *final(old(self).error_reporter),
            decreases src.len() - self.current,
        {
            proof {
                lemma_ident_end(src, self.current + 1);
            }
            self.advance();
        }
        let kind = word_kind_of(&self.source, self.start, self.current);
        self.add_token(kind, None);
        proof {
            let u = unit(src, self.start as int);
            assert(diagnostics_view(self.error_reporter.diagnostics@) =~= diagnostics_view(
                old(self).error_reporter.diagnostics@,
            ) + unit_errors(src, u));
            assert(tokens_view(self.tokens@) =~= tokens_view(old(self).tokens@) + option_seq(
                u.token,
            ));
        }
    }

    /// Emits the single-character token just read.
    fn single(&mut self, kind: TokenType)
        requires
            old(self).after_first(),
            single_kind(old(self).src()[old(self).start as int]) == Some(kind),
        ensures
            final(self).did_unit(old(self)),
            *final(final(self).error_reporter) == *final(old(self).error_reporter),
    {
        let ghost src = self.src();
        let ghost u = unit(src, self.start as int);
        self.add_token(kind, None);
        proof {
            assert(tokens_view(self.tokens@) =~= tokens_view(old(self).tokens@) + option_seq(
                u.token,
            ));
            assert(diagnostics_view(self.error_reporter.diagnostics@) =~= diagnostics_view(
                old(self).error_reporter.diagnostics@,
            ) + unit_errors(src, u));
        }
    }

    /// Emits `two` when the operator just read is followed by `=` (and
    /// consumes the `=`), else `one`.
    fn operator(&mut self, two: TokenType, one: TokenType)
        requires
            old(self).after_first(),
            single_kind(old(self).src()[old(self).start as int]) is None,
            operator_kind(old(self).src()[old(self).start as int], true) == Some(two),
            operator_kind(old(self).src()[old(self).start as int], false) == Some(one),
        ensures
            final(self).did_unit(old(self)),
            *final(final(self).error_reporter) == *final(old(self).error_reporter),
    {
        let ghost src = self.src();
        let ghost u = unit(src, self.start as int);
        let next: bool = self.next_match('=');
        self.add_token(
            if next {
                two
            } else {
                one
            },
            None,
        );
        proof {
            if next {
                assert(line_at(src, self.start + 2) == line_at(src, self.start + 1));
            }
            assert(tokens_view(self.tokens@) =~= tokens_view(old(self).tokens@) + option_seq(
                u.token,
            ));
            assert(diagnostics_view(self.error_reporter.diagnostics@) =~= diagnostics_view(
                old(self).error_reporter.diagnostics@,
            ) + unit_errors(src, u));
        }
    }

    /// After a `/`: skips a comment up to the end of the line, or emits a
    /// division token.
    fn slash(&mut self)
        requires
            old(self).after_first(),
            old(self).src()[old(self).start as int] == '/',
        ensures
            final(self).did_unit(old(self)),
            *final(final(self).error_reporter) == *final(old(self).error_reporter),
    {
        let ghost src = self.src();
        let ghost u = unit(src, self.start as int);
        if self.next_match('/') {
            let ghost stop = find_from(src, self.start + 2, '\n');
            proof {
                lemma_find_from(src, self.start + 2, '\n');
                assert(line_at(src, self.start + 2) == line_at(src, self.start + 1));
            }
            while self.peek() != '\n' && !self.is_at_end()
                invariant
                    self.source@ == src,
                    self.start + 2 <= self.current <= stop <= src.len() < usize::MAX,
                    find_from(src, self.current as int, '\n') == stop,
                    self.line_no == line_at(src, self.current as int),
                    self.tokens@ == old(self).tokens@,
                    self.start == old(self).start,
                    self.finished == old(self).finished,
                    *self.error_reporter == *old(self).error_reporter,
                    *final(self.error_reporter) == *final(old(self).error_reporter),
                decreases src.len() - self.current,
            {
                proof {
                    lemma_find_from(src, self.current + 1, '\n');
                }
                self.advance();
            }
            proof {
                assert(tokens_view(self.tokens@) =~= tokens_view(old(self).tokens@) + option_seq(
                    u.token,
                ));
            }
        } else {
            self.add_token(TokenType::Slash, None);
            proof {
                assert(tokens_view(self.tokens@) =~= tokens_view(old(self).tokens@) + option_seq(
                    u.token,
                ));
            }
        }
        proof {
            assert(diagnostics_view(self.error_reporter.diagnostics@) =~= diagnostics_view(
                old(self).error_reporter.diagnostics@,
            ) + unit_errors(src, u));
        }
    }

    /// After whitespace or a newline: emits nothing, counts the newline.
    fn blank(&mut self, c: char)
        requires
            old(self).start < old(self).current == old(self).start + 1 <= old(self).src().len()
                < usize::MAX,
            old(self).line_no == line_at(old(self).src(), old(self).start as int),
            old(self).src()[old(self).start as int] == c,
            is_blank(c),
        ensures
            final(self).did_unit(old(self)),
            *final(final(self).error_reporter) == *final(old(self).error_reporter),
    {
        let ghost src = self.src();
        let ghost u = unit(src, self.start as int);
        if c == '\n' {
            proof {
                lemma_newlines_bound(src, self.start as int);
            }
            self.line_no = self.line_no + 1;
        }
        proof {
            assert(diagnostics_view(self.error_reporter.diagnostics@) =~= diagnostics_view(
                old(self).error_reporter.diagnostics@,
            ) + unit_errors(src, u));
            assert(tokens_view(self.tokens@) =~= tokens_view(old(self).tokens@) + option_seq(
                u.token,
            ));
        }
    }

    /// After a character that begins no lexeme: reports it.
    fn unexpected(&mut self)
        requires
            old(self).after_first(),
            unit(old(self).src(), old(self).start as int).error == Some(
                ScanError::UnexpectedCharacter,
            ),
            unit(old(self).src(), old(self).start as int).token is None,
            unit(old(self).src(), old(self).start as int).end == old(self).start + 1,
        ensures
            final(self).did_unit(old(self)),
            *final(final(self).error_reporter) == *final(old(self).error_reporter),
    {
        let ghost src = self.src();
        let ghost u = unit(src, self.start as int);
        error(self.error_reporter, self.line_no, ScanError::UnexpectedCharacter);
        proof {
            assert(diagnostics_view(self.error_reporter.diagnostics@) =~= diagnostics_view(
                old(self).error_reporter.diagnostics@,
            ) + unit_errors(src, u));
            assert(tokens_view(self.tokens@) =~= tokens_view(old(self).tokens@) + option_seq(
                u.token,
            ));
        }
    }

    /// Recognizes the one lexical unit that begins at `start`.
    fn scan_token(&mut self)
        requires
            old(self).start == old(self).current < old(self).src().len() < usize::MAX,
            old(self).line_no == line_at(old(self).src(), old(self).current as int),
        ensures
            final(self).did_unit(old(self)),
            *final(final(self).error_reporter) == *final(old(self).error_reporter),
    {
        let ghost src = self.src();
        proof {
            lemma_unit_advances(src, self.start as int);
        }
        let c: char = self.advance();
        match c {
            '(' => self.single(TokenType::LeftParen),
            ')' => self.single(TokenType::RightParen),
            '{' => self.single(TokenType::LeftBrace),
            '}' => self.single(TokenType::RightBrace),
            ',' => self.single(TokenType::Comma),
            '.' => self.single(TokenType::Dot),
            '-' => self.single(TokenType::Minus),
            '+' => self.single(TokenType::Plus),
            ';' => self.single(TokenType::Semicolon),
            '*' => self.single(TokenType::Star),
            '!' => self.operator(TokenType::BangEqual, TokenType::Bang),
            '=' => self.operator(TokenType::EqualEqual, TokenType::Equal),
            '<' => self.operator(TokenType::LessEqual, TokenType::Less),
            '>' => self.operator(TokenType::GreaterEqual, TokenType::Greater),
            '/' => self.slash(),
            '"' => self.string(),
            ' ' | '\r' | '\t' | '\n' => self.blank(c),
            _ => {
                if is_decimal_digit(c) {
                    self.number();
                } else if is_alphabetic(c) || c == '_' {
                    self.identifier();
                } else {
                    self.unexpected();
                }
            },
        }
    }

    /// Scans the rest of the text and returns the whole token sequence,
    /// which ends in the end-of-input token. Once the text is exhausted a
    /// further call changes nothing.
    #[verifier::spinoff_prover]
    pub fn scan_tokens(&mut self) -> (r: &[Token])
        requires
            old(self).consistent(),
        ensures
            final(self).consistent(),
            final(self).finished,
            final(self).source@ == old(self).source@,
            r@ == final(self).tokens@,
            tokens_view(r@) == scan_all(old(self).src()),
            old(self).finished ==> *final(self).error_reporter == *old(self).error_reporter,
            !old(self).finished ==> diagnostics_view(final(self).error_reporter.diagnostics@)
                == diagnostics_view(old(self).error_reporter.diagnostics@) + scan_from(
                old(self).src(),
                old(self).current as int,
            ).1,
            !old(self).finished ==> final(self).error_reporter.had_error == (
            old(self).error_reporter.had_error || scan_from(
                old(self).src(),
                old(self).current as int,
            ).1.len() > 0),
            *final(final(self).error_reporter) == *final(old(self).error_reporter),
    {
        if !self.finished {
            let ghost src = self.src();
            let ghost errs0 = diagnostics_view(self.error_reporter.diagnostics@);
            let ghost had0 = self.error_reporter.had_error;
            proof {
                assert(errs0 + scan_from(src, self.current as int).1 =~= diagnostics_view(
                    old(self).error_reporter.diagnostics@,
                ) + scan_from(src, old(self).current as int).1);
            }
            while !self.is_at_end()
                invariant
                    self.source@ == src,
                    self.start <= self.current <= src.len() < usize::MAX,
                    self.line_no == line_at(src, self.current as int),
                    !self.finished,
                    tokens_view(self.tokens@) + scan_from(src, self.current as int).0 == scan_from(
                        src,
                        0,
                    ).0,
                    diagnostics_view(self.error_reporter.diagnostics@) + scan_from(
                        src,
                        self.current as int,
                    ).1 == errs0 + scan_from(src, old(self).current as int).1,
                    diagnostics_view(self.error_reporter.diagnostics@).len() >= errs0.len(),
                    self.error_reporter.had_error == (had0 || diagnostics_view(
                        self.error_reporter.diagnostics@,
                    ).len() > errs0.len()),
                    *final(self.error_reporter) == *final(old(self).error_reporter),
                decreases src.len() - self.current,
            {
                self.start = self.current;
                let ghost pos = self.current as int;
                let ghost toks = tokens_view(self.tokens@);
                let ghost errs = diagnostics_view(self.error_reporter.diagnostics@);
                self.scan_token();
                proof {
                    let u = unit(src, pos);
                    lemma_unit_advances(src, pos);
                    let rest = scan_from(src, u.end);
                    assert(scan_from(src, pos).0 == option_seq(u.token) + rest.0);
                    assert(scan_from(src, pos).1 == unit_errors(src, u) + rest.1);
                    assert(toks + (option_seq(u.token) + rest.0) =~= (toks + option_seq(u.token))
                        + rest.0);
                    assert(errs + (unit_errors(src, u) + rest.1) =~= (errs + unit_errors(src, u))
                        + rest.1);
                }
            }
            let eof = Token::new(TokenType::EOF, String::new(), None);
            proof {
                lemma_tokens_push(self.tokens@, eof);
                assert(tokens_view(self.tokens@) =~= scan_from(src, 0).0);
                assert(diagnostics_view(self.error_reporter.diagnostics@) =~= errs0 + scan_from(
                    src,
                    old(self).current as int,
                ).1);
            }
            self.tokens.push(eof);
            self.finished = true;
        }
        self.tokens.as_slice()
    }
}

} // verus!
