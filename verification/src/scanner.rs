//! The scanner: a single left-to-right pass over the source text that
//! produces the token sequence, the recovered-error sequence and the final
//! line count.
//!
//! The pass is specified by the recursive model [`scan_from`]: it dispatches
//! on the next character, consumes one lexeme (or one piece of whitespace,
//! one comment, or one invalid character) and recurses at the position after
//! it. [`Scanner::parse`] is proved to return exactly [`scan_of`] applied to
//! the view of its input.

use crate::token::{ident_kind_of, Token, TokenView, Type, TypeView};
use vstd::prelude::*;
use vstd::string::StrSliceExecFns;
use vstd::utf8::{char_is_scalar, encode_scalar, encode_utf8};

verus! {

// ---------------------------------------------------------------------------
// Character classification
// ---------------------------------------------------------------------------
/// Names the Unicode numeric classification that `char::is_numeric` computes.
pub uninterp spec fn numeric_class(c: char) -> bool;

/// Names the Unicode alphabetic classification that `char::is_alphabetic`
/// computes.
pub uninterp spec fn alphabetic_class(c: char) -> bool;

/// A character that may start or continue the digit run of a number literal.
pub open spec fn is_numeric_char(c: char) -> bool {
    numeric_class(c) && c != '\n'
}

/// A character that may start an identifier.
pub open spec fn is_alphabetic_char(c: char) -> bool {
    alphabetic_class(c) && c != '\n'
}

/// A character that may continue an identifier.
pub open spec fn is_ident_char(c: char) -> bool {
    is_alphabetic_char(c) || is_numeric_char(c)
}

/// Relies on `char::is_numeric`: true exactly for characters with a Unicode
/// numeric property. A newline is a control character, never numeric.
#[verifier::external_body]
fn char_is_numeric(c: char) -> (r: bool)
    ensures
        r == (numeric_class(c) && c != '\n'),
{
    c.is_numeric()
}

/// Relies on `char::is_alphabetic`: true exactly for characters with the
/// Unicode `Alphabetic` property. A newline is a control character, never
/// alphabetic.
#[verifier::external_body]
fn char_is_alphabetic(c: char) -> (r: bool)
    ensures
        r == (alphabetic_class(c) && c != '\n'),
{
    c.is_alphabetic()
}

/// Relies on `char::is_alphanumeric`, documented as true exactly when
/// `is_alphabetic()` or `is_numeric()` is.
#[verifier::external_body]
fn char_is_alphanumeric(c: char) -> (r: bool)
    ensures
        r == is_ident_char(c),
{
    c.is_alphanumeric()
}

// ---------------------------------------------------------------------------
// Byte positions
// ---------------------------------------------------------------------------
/// The width in bytes of one character's UTF-8 encoding.
pub open spec fn char_bytes(c: char) -> nat {
    encode_scalar(c as u32).len()
}

/// The length in bytes of the UTF-8 encoding of a character sequence.
pub open spec fn byte_len(s: Seq<char>) -> nat {
    encode_utf8(s).len()
}

/// The byte index at which the character at position `i` starts.
pub open spec fn byte_index(s: Seq<char>, i: int) -> nat
    recommends
        0 <= i <= s.len(),
{
    byte_len(s.subrange(0, i))
}

proof fn lemma_encode_utf8_push(s: Seq<char>, c: char)
    ensures
        encode_utf8(s.push(c)) == encode_utf8(s) + encode_scalar(c as u32),
    decreases s.len(),
{
    if s.len() == 0 {
        assert(s.push(c)[0] == c);
        assert(s.push(c).drop_first() =~= Seq::<char>::empty());
        assert(s =~= Seq::<char>::empty());
        assert(encode_utf8(s.push(c)) =~= encode_utf8(s) + encode_scalar(c as u32));
    } else {
        lemma_encode_utf8_push(s.drop_first(), c);
        assert(s.push(c)[0] == s[0]);
        assert(s.push(c).drop_first() =~= s.drop_first().push(c));
        assert(encode_utf8(s.push(c)) =~= encode_utf8(s) + encode_scalar(c as u32));
    }
}

proof fn lemma_byte_index_step(s: Seq<char>, i: int)
    requires
        0 <= i < s.len(),
    ensures
        byte_index(s, i + 1) == byte_index(s, i) + char_bytes(s[i]),
{
    assert(s.subrange(0, i + 1) =~= s.subrange(0, i).push(s[i]));
    lemma_encode_utf8_push(s.subrange(0, i), s[i]);
}

proof fn lemma_byte_index_le(s: Seq<char>, i: int)
    requires
        0 <= i <= s.len(),
    ensures
        byte_index(s, i) <= byte_len(s),
    decreases s.len() - i,
{
    if i == s.len() {
        assert(s.subrange(0, i) =~= s);
    } else {
        lemma_byte_index_step(s, i);
        lemma_byte_index_le(s, i + 1);
    }
}

proof fn lemma_byte_index_ge(s: Seq<char>, i: int)
    requires
        0 <= i <= s.len(),
    ensures
        i <= byte_index(s, i),
    decreases i,
{
    if i > 0 {
        lemma_byte_index_ge(s, i - 1);
        lemma_byte_index_step(s, i - 1);
    }
}

/// The width in bytes of one character's UTF-8 encoding, computed from the
/// scalar value ranges that the encoding is defined by.
fn utf8_len(c: char) -> (r: usize)
    ensures
        r as nat == char_bytes(c),
{
    proof {
        char_is_scalar(c);
    }
    let u = c as u32;
    if u < 0x80 {
        1
    } else if u < 0x800 {
        2
    } else if u < 0x10000 {
        3
    } else {
        4
    }
}

/// The byte index at which the character at position `i` of `source` starts.
fn byte_index_of(source: &str, i: usize) -> (r: usize)
    requires
        i <= source@.len(),
        byte_len(source@) < usize::MAX,
    ensures
        r as nat == byte_index(source@, i as int),
{
    let mut j: usize = 0;
    let mut b: usize = 0;
    proof {
        assert(source@.subrange(0, 0) =~= Seq::<char>::empty());
    }
    while j < i
        invariant
            j <= i,
            i <= source@.len(),
            byte_len(source@) < usize::MAX,
            b as nat == byte_index(source@, j as int),
        decreases i - j,
    {
        let c = source.get_char(j);
        let l = utf8_len(c);
        proof {
            lemma_byte_index_step(source@, j as int);
            lemma_byte_index_le(source@, j + 1);
        }
        b = b + l;
        j = j + 1;
    }
    b
}

// ---------------------------------------------------------------------------
// Lexeme boundaries
// ---------------------------------------------------------------------------
/// The position just past the maximal run of numeric characters starting
/// at `i`.
pub open spec fn num_run_end(s: Seq<char>, i: int) -> int
    decreases s.len() - i
        when 0 <= i <= s.len()
{
    if i < s.len() && is_numeric_char(s[i]) {
        num_run_end(s, i + 1)
    } else {
        i
    }
}

pub proof fn lemma_num_run_end(s: Seq<char>, i: int)
    requires
        0 <= i <= s.len(),
    ensures
        i <= num_run_end(s, i) <= s.len(),
        forall|k: int| i <= k < num_run_end(s, i) ==> is_numeric_char(#[trigger] s[k]),
        num_run_end(s, i) < s.len() ==> !is_numeric_char(s[num_run_end(s, i)]),
    decreases s.len() - i,
{
    if i < s.len() && is_numeric_char(s[i]) {
        lemma_num_run_end(s, i + 1);
    }
}

/// The position just past the maximal run of identifier characters starting
/// at `i`.
pub open spec fn ident_run_end(s: Seq<char>, i: int) -> int
    decreases s.len() - i
        when 0 <= i <= s.len()
{
    if i < s.len() && is_ident_char(s[i]) {
        ident_run_end(s, i + 1)
    } else {
        i
    }
}

pub proof fn lemma_ident_run_end(s: Seq<char>, i: int)
    requires
        0 <= i <= s.len(),
    ensures
        i <= ident_run_end(s, i) <= s.len(),
        forall|k: int| i <= k < ident_run_end(s, i) ==> is_ident_char(#[trigger] s[k]),
        ident_run_end(s, i) < s.len() ==> !is_ident_char(s[ident_run_end(s, i)]),
    decreases s.len() - i,
{
    if i < s.len() && is_ident_char(s[i]) {
        lemma_ident_run_end(s, i + 1);
    }
}

/// The position of the first newline at or after `i`, or the end of input.
pub open spec fn comment_body_end(s: Seq<char>, i: int) -> int
    decreases s.len() - i
        when 0 <= i <= s.len()
{
    if i < s.len() && s[i] != '\n' {
        comment_body_end(s, i + 1)
    } else {
        i
    }
}

pub proof fn lemma_comment_body_end(s: Seq<char>, i: int)
    requires
        0 <= i <= s.len(),
    ensures
        i <= comment_body_end(s, i) <= s.len(),
        forall|k: int| i <= k < comment_body_end(s, i) ==> #[trigger] s[k] != '\n',
        comment_body_end(s, i) < s.len() ==> s[comment_body_end(s, i)] == '\n',
    decreases s.len() - i,
{
    if i < s.len() && s[i] != '\n' {
        lemma_comment_body_end(s, i + 1);
    }
}

/// The position of the first closing quote at or after `i`, or the end of
/// input.
pub open spec fn string_body_end(s: Seq<char>, i: int) -> int
    decreases s.len() - i
        when 0 <= i <= s.len()
{
    if i < s.len() && s[i] != '"' {
        string_body_end(s, i + 1)
    } else {
        i
    }
}

pub proof fn lemma_string_body_end(s: Seq<char>, i: int)
    requires
        0 <= i <= s.len(),
    ensures
        i <= string_body_end(s, i) <= s.len(),
        forall|k: int| i <= k < string_body_end(s, i) ==> #[trigger] s[k] != '"',
        string_body_end(s, i) < s.len() ==> s[string_body_end(s, i)] == '"',
    decreases s.len() - i,
{
    if i < s.len() && s[i] != '"' {
        lemma_string_body_end(s, i + 1);
    }
}

/// The position just past one complete number lexeme starting at `i`: a
/// maximal digit run, then a fractional part only when a dot is immediately
/// followed by another digit. A trailing dot is left for the next dispatch
/// step, which re-tokenizes it as a separate `Dot`.
pub open spec fn number_end(s: Seq<char>, i: int) -> int
    recommends
        0 <= i < s.len(),
{
    let d = num_run_end(s, i + 1);
    if d + 1 < s.len() && s[d] == '.' && is_numeric_char(s[d + 1]) {
        num_run_end(s, d + 1)
    } else {
        d
    }
}

// ---------------------------------------------------------------------------
// Line counting
// ---------------------------------------------------------------------------
/// The number of newline characters in a character sequence.
pub open spec fn newline_count(s: Seq<char>) -> nat
    decreases s.len(),
{
    if s.len() == 0 {
        0
    } else {
        newline_count(s.drop_last()) + (if s.last() == '\n' {
            1nat
        } else {
            0nat
        })
    }
}

// ---------------------------------------------------------------------------
// Errors
// ---------------------------------------------------------------------------
/// One scan failure as it appears in specifications.
pub enum ErrorView {
    InvalidCharacter { character: char, line: nat, index: nat },
    UnterminatedLiteral,
    InvalidNumber(Seq<char>),
}

/// One scan failure. Errors are collected, never thrown: scanning always
/// completes and returns whatever tokens and errors were produced.
///
/// `InvalidNumber` carries a numeric lexeme that a downstream consumer could
/// not turn into a machine number; the scan itself only ever produces the
/// first two variants, since every lexeme it consumes in number mode already
/// matches the digit-run grammar.
#[derive(Debug, PartialEq, Eq)]
pub enum Error {
    InvalidCharacter { character: char, line: usize, index: usize },
    UnterminatedLiteral,
    InvalidNumber(String),
}

impl View for Error {
    type V = ErrorView;

    open spec fn view(&self) -> ErrorView {
        match self {
            Error::InvalidCharacter { character, line, index } => ErrorView::InvalidCharacter {
                character: *character,
                line: *line as nat,
                index: *index as nat,
            },
            Error::UnterminatedLiteral => ErrorView::UnterminatedLiteral,
            Error::InvalidNumber(s) => ErrorView::InvalidNumber(s@),
        }
    }
}

// ---------------------------------------------------------------------------
// The scan model
// ---------------------------------------------------------------------------
/// What one suffix of the scan produces: the tokens and errors discovered
/// from some position on, and the final line count.
#[verifier::ext_equal]
pub struct ScanModel {
    pub tokens: Seq<TokenView>,
    pub errors: Seq<ErrorView>,
    pub lines: nat,
}

/// Prepends one token to a model suffix.
pub open spec fn with_token(t: TypeView, line: nat, m: ScanModel) -> ScanModel {
    ScanModel { tokens: seq![TokenView { typ: t, line }] + m.tokens, errors: m.errors, lines: m.lines }
}

/// Prepends one error to a model suffix.
pub open spec fn with_error(e: ErrorView, m: ScanModel) -> ScanModel {
    ScanModel { tokens: m.tokens, errors: seq![e] + m.errors, lines: m.lines }
}

/// The single-pass scan from position `i` on, with the line counter at
/// `line`: dispatch on the character at `i`, consume one lexeme, comment,
/// whitespace character or invalid character, and continue after it.
///
/// An unterminated string literal consumes the remaining input, records one
/// error and ends the scan with the line counter advanced past every
/// embedded newline.
pub open spec fn scan_from(s: Seq<char>, i: int, line: nat) -> ScanModel
    decreases s.len() - i
        when 0 <= i <= s.len()
{
    if i >= s.len() {
        ScanModel { tokens: seq![], errors: seq![], lines: line }
    } else {
        let c = s[i];
        if c == '(' {
            with_token(TypeView::LeftParent, line, scan_from(s, i + 1, line))
        } else if c == ')' {
            with_token(TypeView::RightParent, line, scan_from(s, i + 1, line))
        } else if c == '{' {
            with_token(TypeView::LeftBrace, line, scan_from(s, i + 1, line))
        } else if c == '}' {
            with_token(TypeView::RightBrace, line, scan_from(s, i + 1, line))
        } else if c == ',' {
            with_token(TypeView::Comma, line, scan_from(s, i + 1, line))
        } else if c == '.' {
            with_token(TypeView::Dot, line, scan_from(s, i + 1, line))
        } else if c == '-' {
            with_token(TypeView::Minus, line, scan_from(s, i + 1, line))
        } else if c == '+' {
            with_token(TypeView::Plus, line, scan_from(s, i + 1, line))
        } else if c == ';' {
            with_token(TypeView::Semicolon, line, scan_from(s, i + 1, line))
        } else if c == '*' {
            with_token(TypeView::Star, line, scan_from(s, i + 1, line))
        } else if c == '!' {
            if i + 1 < s.len() && s[i + 1] == '=' {
                with_token(TypeView::BangEqual, line, scan_from(s, i + 2, line))
            } else {
                with_token(TypeView::Bang, line, scan_from(s, i + 1, line))
            }
        } else if c == '=' {
            if i + 1 < s.len() && s[i + 1] == '=' {
                with_token(TypeView::EqualEqual, line, scan_from(s, i + 2, line))
            } else {
                with_token(TypeView::Equal, line, scan_from(s, i + 1, line))
            }
        } else if c == '<' {
            if i + 1 < s.len() && s[i + 1] == '=' {
                with_token(TypeView::LessEqual, line, scan_from(s, i + 2, line))
            } else {
                with_token(TypeView::Less, line, scan_from(s, i + 1, line))
            }
        } else if c == '>' {
            if i + 1 < s.len() && s[i + 1] == '=' {
                with_token(TypeView::GreaterEqual, line, scan_from(s, i + 2, line))
            } else {
                with_token(TypeView::Greater, line, scan_from(s, i + 1, line))
            }
        } else if c == '/' {
            if i + 1 < s.len() && s[i + 1] == '/' {
                // A line comment: consumed up to and including the newline
                // that ends it, or to the end of input; no token.
                let e = comment_body_end(s, i + 1);
                proof {
                    lemma_comment_body_end(s, i + 1);
                }
                if e < s.len() {
                    scan_from(s, e + 1, line + 1)
                } else {
                    ScanModel { tokens: seq![], errors: seq![], lines: line }
                }
            } else {
                with_token(TypeView::Slash, line, scan_from(s, i + 1, line))
            }
        } else if c == '"' {
            let e = string_body_end(s, i + 1);
            proof {
                lemma_string_body_end(s, i + 1);
            }
            if e < s.len() {
                // The payload is the text strictly between the quotes; the
                // token is tagged with the line of the closing quote.
                let l2 = line + newline_count(s.subrange(i + 1, e));
                with_token(TypeView::String(s.subrange(i + 1, e)), l2, scan_from(s, e + 1, l2))
            } else {
                ScanModel {
                    tokens: seq![],
                    errors: seq![ErrorView::UnterminatedLiteral],
                    lines: line + newline_count(s.subrange(i + 1, e)),
                }
            }
        } else if c == '\n' {
            scan_from(s, i + 1, line + 1)
        } else if c == ' ' || c == '\r' || c == '\t' {
            scan_from(s, i + 1, line)
        } else if is_numeric_char(c) {
            let e = number_end(s, i);
            proof {
                lemma_num_run_end(s, i + 1);
                if num_run_end(s, i + 1) + 1 < s.len() {
                    lemma_num_run_end(s, num_run_end(s, i + 1) + 1);
                }
            }
            with_token(TypeView::Number(s.subrange(i, e)), line, scan_from(s, e, line))
        } else if is_alphabetic_char(c) {
            let e = ident_run_end(s, i + 1);
            proof {
                lemma_ident_run_end(s, i + 1);
            }
            with_token(ident_kind_of(s.subrange(i, e)), line, scan_from(s, e, line))
        } else {
            with_error(
                ErrorView::InvalidCharacter { character: c, line, index: byte_index(s, i) },
                scan_from(s, i + 1, line),
            )
        }
    }
}

/// A completed scan as it appears in specifications: the source, the token
/// and error sequences in discovery order, and the final line count.
#[verifier::ext_equal]
pub struct ScannerView {
    pub source: Seq<char>,
    pub tokens: Seq<TokenView>,
    pub errors: Seq<ErrorView>,
    pub lines: nat,
}

/// The scan of a whole source text: one pass from the first character, with
/// the line counter starting at 1.
pub open spec fn scan_of(src: Seq<char>) -> ScannerView {
    let m = scan_from(src, 0, 1);
    ScannerView { source: src, tokens: m.tokens, errors: m.errors, lines: m.lines }
}

/// The views of a sequence of tokens.
pub open spec fn views_of_tokens<'a>(ts: Seq<Token<'a>>) -> Seq<TokenView> {
    ts.map_values(|t: Token<'a>| t@)
}

/// The views of a sequence of errors.
pub open spec fn views_of_errors(es: Seq<Error>) -> Seq<ErrorView> {
    es.map_values(|e: Error| e@)
}

proof fn lemma_views_of_tokens_push<'a>(ts: Seq<Token<'a>>, t: Token<'a>)
    ensures
        views_of_tokens(ts.push(t)) == views_of_tokens(ts).push(t@),
{
    assert(views_of_tokens(ts.push(t)) =~= views_of_tokens(ts).push(t@));
}

proof fn lemma_views_of_errors_push(es: Seq<Error>, e: Error)
    ensures
        views_of_errors(es.push(e)) == views_of_errors(es).push(e@),
{
    assert(views_of_errors(es.push(e)) =~= views_of_errors(es).push(e@));
}

/// One dispatch step that emits a token: shifts the emitted token from the
/// model suffix onto the sequence built so far.
proof fn lemma_step_token<'a>(
    src: Seq<char>,
    i0: int,
    line0: nat,
    i1: int,
    line1: nat,
    tks: Seq<Token<'a>>,
    t: Token<'a>,
    errs: Seq<Error>,
)
    requires
        scan_from(src, i0, line0) == with_token(t@.typ, t@.line, scan_from(src, i1, line1)),
        scan_from(src, 0, 1).tokens == views_of_tokens(tks) + scan_from(src, i0, line0).tokens,
        scan_from(src, 0, 1).errors == views_of_errors(errs) + scan_from(src, i0, line0).errors,
        scan_from(src, 0, 1).lines == scan_from(src, i0, line0).lines,
    ensures
        scan_from(src, 0, 1).tokens == views_of_tokens(tks.push(t)) + scan_from(src, i1, line1).tokens,
        scan_from(src, 0, 1).errors == views_of_errors(errs) + scan_from(src, i1, line1).errors,
        scan_from(src, 0, 1).lines == scan_from(src, i1, line1).lines,
{
    lemma_views_of_tokens_push(tks, t);
    assert(scan_from(src, 0, 1).tokens =~= views_of_tokens(tks.push(t)) + scan_from(
        src,
        i1,
        line1,
    ).tokens);
}

/// One dispatch step that records an error: shifts the recorded error from
/// the model suffix onto the sequence built so far.
proof fn lemma_step_error<'a>(
    src: Seq<char>,
    i0: int,
    line0: nat,
    i1: int,
    line1: nat,
    tks: Seq<Token<'a>>,
    errs: Seq<Error>,
    e: Error,
)
    requires
        scan_from(src, i0, line0) == with_error(e@, scan_from(src, i1, line1)),
        scan_from(src, 0, 1).tokens == views_of_tokens(tks) + scan_from(src, i0, line0).tokens,
        scan_from(src, 0, 1).errors == views_of_errors(errs) + scan_from(src, i0, line0).errors,
        scan_from(src, 0, 1).lines == scan_from(src, i0, line0).lines,
    ensures
        scan_from(src, 0, 1).tokens == views_of_tokens(tks) + scan_from(src, i1, line1).tokens,
        scan_from(src, 0, 1).errors == views_of_errors(errs.push(e)) + scan_from(
            src,
            i1,
            line1,
        ).errors,
        scan_from(src, 0, 1).lines == scan_from(src, i1, line1).lines,
{
    lemma_views_of_errors_push(errs, e);
    assert(scan_from(src, 0, 1).errors =~= views_of_errors(errs.push(e)) + scan_from(
        src,
        i1,
        line1,
    ).errors);
}

/// One dispatch step that emits nothing: whitespace, a newline or a comment.
proof fn lemma_step_skip<'a>(
    src: Seq<char>,
    i0: int,
    line0: nat,
    i1: int,
    line1: nat,
    tks: Seq<Token<'a>>,
    errs: Seq<Error>,
)
    requires
        scan_from(src, i0, line0) == scan_from(src, i1, line1),
        scan_from(src, 0, 1).tokens == views_of_tokens(tks) + scan_from(src, i0, line0).tokens,
        scan_from(src, 0, 1).errors == views_of_errors(errs) + scan_from(src, i0, line0).errors,
        scan_from(src, 0, 1).lines == scan_from(src, i0, line0).lines,
    ensures
        scan_from(src, 0, 1).tokens == views_of_tokens(tks) + scan_from(src, i1, line1).tokens,
        scan_from(src, 0, 1).errors == views_of_errors(errs) + scan_from(src, i1, line1).errors,
        scan_from(src, 0, 1).lines == scan_from(src, i1, line1).lines,
{
}

/// The scanner: owns the source text for the duration of one scan and
/// exposes the token sequence, the error sequence and the final line count
/// it produced.
pub struct Scanner<'a> {
    source: &'a str,
    tokens: Vec<Token<'a>>,
    errors: Vec<Error>,
    lines: usize,
}

impl<'a> View for Scanner<'a> {
    type V = ScannerView;

    closed spec fn view(&self) -> ScannerView {
        ScannerView {
            source: self.source@,
            tokens: views_of_tokens(self.tokens@),
            errors: views_of_errors(self.errors@),
            lines: self.lines as nat,
        }
    }
}

impl<'a> Scanner<'a> {
    /// Scans the whole source text in one left-to-right pass and returns
    /// the completed scan: exactly the tokens, errors and line count of
    /// the model [`scan_of`].
    #[must_use]
    #[verifier::loop_isolation(false)]
    #[verifier::rlimit(100)]
    pub fn parse(source: &'a str) -> (r: Scanner<'a>)
        requires
            byte_len(source@) < usize::MAX,
        ensures
            r@ == scan_of(source@),
    {
        let n = source.unicode_len();
        let mut tokens: Vec<Token<'a>> = Vec::new();
        let mut errors: Vec<Error> = Vec::new();
        let mut lines: usize = 1;
        let mut i: usize = 0;
        proof {
            assert(source@.subrange(0, source@.len() as int) =~= source@);
            lemma_byte_index_ge(source@, source@.len() as int);
            assert(views_of_tokens(tokens@) =~= Seq::<TokenView>::empty());
            assert(views_of_errors(errors@) =~= Seq::<ErrorView>::empty());
            assert(scan_from(source@, 0, 1).tokens =~= views_of_tokens(tokens@) + scan_from(
                source@,
                0,
                1,
            ).tokens);
            assert(scan_from(source@, 0, 1).errors =~= views_of_errors(errors@) + scan_from(
                source@,
                0,
                1,
            ).errors);
        }
        while i < n
            invariant
                n as int == source@.len(),
                i <= n,
                1 <= lines,
                lines as int <= 1 + i as int,
                scan_from(source@, 0, 1).tokens == views_of_tokens(tokens@) + scan_from(
                    source@,
                    i as int,
                    lines as nat,
                ).tokens,
                scan_from(source@, 0, 1).errors == views_of_errors(errors@) + scan_from(
                    source@,
                    i as int,
                    lines as nat,
                ).errors,
                scan_from(source@, 0, 1).lines == scan_from(source@, i as int, lines as nat).lines,
            decreases n - i,
        {
            let ghost i0 = i as int;
            let ghost l0 = lines as nat;
            let ghost tks0 = tokens@;
            let ghost errs0 = errors@;
            let c = source.get_char(i);
            match c {
                '(' => {
                    proof {
                        lemma_step_token(source@, i0, l0, i0 + 1, l0, tks0, Token { typ: Type::LeftParent, line: lines }, errs0);
                    }
                    tokens.push(Token { typ: Type::LeftParent, line: lines });
                    i = i + 1;
                }
                ')' => {
                    proof {
                        lemma_step_token(source@, i0, l0, i0 + 1, l0, tks0, Token { typ: Type::RightParent, line: lines }, errs0);
                    }
                    tokens.push(Token { typ: Type::RightParent, line: lines });
                    i = i + 1;
                }
                '{' => {
                    proof {
                        lemma_step_token(source@, i0, l0, i0 + 1, l0, tks0, Token { typ: Type::LeftBrace, line: lines }, errs0);
                    }
                    tokens.push(Token { typ: Type::LeftBrace, line: lines });
                    i = i + 1;
                }
                '}' => {
                    proof {
                        lemma_step_token(source@, i0, l0, i0 + 1, l0, tks0, Token { typ: Type::RightBrace, line: lines }, errs0);
                    }
                    tokens.push(Token { typ: Type::RightBrace, line: lines });
                    i = i + 1;
                }
                ',' => {
                    proof {
                        lemma_step_token(source@, i0, l0, i0 + 1, l0, tks0, Token { typ: Type::Comma, line: lines }, errs0);
                    }
                    tokens.push(Token { typ: Type::Comma, line: lines });
                    i = i + 1;
                }
                '.' => {
                    proof {
                        lemma_step_token(source@, i0, l0, i0 + 1, l0, tks0, Token { typ: Type::Dot, line: lines }, errs0);
                    }
                    tokens.push(Token { typ: Type::Dot, line: lines });
                    i = i + 1;
                }
                '-' => {
                    proof {
                        lemma_step_token(source@, i0, l0, i0 + 1, l0, tks0, Token { typ: Type::Minus, line: lines }, errs0);
                    }
                    tokens.push(Token { typ: Type::Minus, line: lines });
                    i = i + 1;
                }
                '+' => {
                    proof {
                        lemma_step_token(source@, i0, l0, i0 + 1, l0, tks0, Token { typ: Type::Plus, line: lines }, errs0);
                    }
                    tokens.push(Token { typ: Type::Plus, line: lines });
                    i = i + 1;
                }
                ';' => {
                    proof {
                        lemma_step_token(source@, i0, l0, i0 + 1, l0, tks0, Token { typ: Type::Semicolon, line: lines }, errs0);
                    }
                    tokens.push(Token { typ: Type::Semicolon, line: lines });
                    i = i + 1;
                }
                '*' => {
                    proof {
                        lemma_step_token(source@, i0, l0, i0 + 1, l0, tks0, Token { typ: Type::Star, line: lines }, errs0);
                    }
                    tokens.push(Token { typ: Type::Star, line: lines });
                    i = i + 1;
                }
                '!' => {
                    if i + 1 < n && source.get_char(i + 1) == '=' {
                        proof {
                            lemma_step_token(source@, i0, l0, i0 + 2, l0, tks0, Token { typ: Type::BangEqual, line: lines }, errs0);
                        }
                        tokens.push(Token { typ: Type::BangEqual, line: lines });
                        i = i + 2;
                    } else {
                        proof {
                            lemma_step_token(source@, i0, l0, i0 + 1, l0, tks0, Token { typ: Type::Bang, line: lines }, errs0);
                        }
                        tokens.push(Token { typ: Type::Bang, line: lines });
                        i = i + 1;
                    }
                }
                '=' => {
                    if i + 1 < n && source.get_char(i + 1) == '=' {
                        proof {
                            lemma_step_token(source@, i0, l0, i0 + 2, l0, tks0, Token { typ: Type::EqualEqual, line: lines }, errs0);
                        }
                        tokens.push(Token { typ: Type::EqualEqual, line: lines });
                        i = i + 2;
                    } else {
                        proof {
                            lemma_step_token(source@, i0, l0, i0 + 1, l0, tks0, Token { typ: Type::Equal, line: lines }, errs0);
                        }
                        tokens.push(Token { typ: Type::Equal, line: lines });
                        i = i + 1;
                    }
                }
                '<' => {
                    if i + 1 < n && source.get_char(i + 1) == '=' {
                        proof {
                            lemma_step_token(source@, i0, l0, i0 + 2, l0, tks0, Token { typ: Type::LessEqual, line: lines }, errs0);
                        }
                        tokens.push(Token { typ: Type::LessEqual, line: lines });
                        i = i + 2;
                    } else {
                        proof {
                            lemma_step_token(source@, i0, l0, i0 + 1, l0, tks0, Token { typ: Type::Less, line: lines }, errs0);
                        }
                        tokens.push(Token { typ: Type::Less, line: lines });
                        i = i + 1;
                    }
                }
                '>' => {
                    if i + 1 < n && source.get_char(i + 1) == '=' {
                        proof {
                            lemma_step_token(source@, i0, l0, i0 + 2, l0, tks0, Token { typ: Type::GreaterEqual, line: lines }, errs0);
                        }
                        tokens.push(Token { typ: Type::GreaterEqual, line: lines });
                        i = i + 2;
                    } else {
                        proof {
                            lemma_step_token(source@, i0, l0, i0 + 1, l0, tks0, Token { typ: Type::Greater, line: lines }, errs0);
                        }
                        tokens.push(Token { typ: Type::Greater, line: lines });
                        i = i + 1;
                    }
                }
                '/' => {
                    if i + 1 < n && source.get_char(i + 1) == '/' {
                        // A line comment: consume to the newline or to the
                        // end of input; no token.
                        let mut j: usize = i + 1;
                        while j < n && source.get_char(j) != '\n'
                            invariant
                                i0 + 1 <= j as int <= n as int,
                                comment_body_end(source@, i0 + 1) == comment_body_end(
                                    source@,
                                    j as int,
                                ),
                            decreases n - j,
                        {
                            j = j + 1;
                        }
                        if j < n {
                            lines = lines + 1;
                            i = j + 1;
                        } else {
                            i = n;
                        }
                        proof {
                            lemma_step_skip(source@, i0, l0, i as int, lines as nat, tks0, errs0);
                        }
                    } else {
                        proof {
                            lemma_step_token(source@, i0, l0, i0 + 1, l0, tks0, Token { typ: Type::Slash, line: lines }, errs0);
                        }
                        tokens.push(Token { typ: Type::Slash, line: lines });
                        i = i + 1;
                    }
                }
                '"' => {
                    let mut j: usize = i + 1;
                    proof {
                        assert(source@.subrange(i0 + 1, i0 + 1) =~= Seq::<char>::empty());
                    }
                    while j < n && source.get_char(j) != '"'
                        invariant
                            i0 + 1 <= j as int <= n as int,
                            string_body_end(source@, i0 + 1) == string_body_end(source@, j as int),
                            lines as nat == l0 + newline_count(
                                source@.subrange(i0 + 1, j as int),
                            ),
                            lines as int <= j as int,
                        decreases n - j,
                    {
                        let cj = source.get_char(j);
                        proof {
                            assert(source@.subrange(i0 + 1, j as int + 1).drop_last()
                                =~= source@.subrange(i0 + 1, j as int));
                            assert(source@.subrange(i0 + 1, j as int + 1).last() == source@[
                                j as int
                            ]);
                        }
                        if cj == '\n' {
                            lines = lines + 1;
                        }
                        j = j + 1;
                    }
                    if j < n {
                        // The closing quote: the payload strips both quotes,
                        // and the token is tagged with the closing line.
                        let payload = source.substring_char(i + 1, j);
                        proof {
                            lemma_step_token(source@, i0, l0, j as int + 1, lines as nat, tks0, Token { typ: Type::String(payload), line: lines }, errs0);
                        }
                        tokens.push(Token { typ: Type::String(payload), line: lines });
                        i = j + 1;
                    } else {
                        proof {
                            assert(scan_from(source@, i0, l0) =~= with_error(
                                ErrorView::UnterminatedLiteral,
                                scan_from(source@, n as int, lines as nat),
                            ));
                            lemma_step_error(source@, i0, l0, n as int, lines as nat, tks0, errs0, Error::UnterminatedLiteral);
                        }
                        errors.push(Error::UnterminatedLiteral);
                        i = n;
                    }
                }
                '\n' => {
                    lines = lines + 1;
                    i = i + 1;
                    proof {
                        lemma_step_skip(source@, i0, l0, i as int, lines as nat, tks0, errs0);
                    }
                }
                ' ' | '\r' | '\t' => {
                    i = i + 1;
                    proof {
                        lemma_step_skip(source@, i0, l0, i as int, lines as nat, tks0, errs0);
                    }
                }
                _ => {
                    if char_is_numeric(c) {
                        // A number literal: a maximal digit run, then a
                        // fractional part only when a dot is immediately
                        // followed by another digit.
                        let mut j: usize = i + 1;
                        while j < n && char_is_numeric(source.get_char(j))
                            invariant
                                i0 + 1 <= j as int <= n as int,
                                num_run_end(source@, i0 + 1) == num_run_end(source@, j as int),
                            decreases n - j,
                        {
                            j = j + 1;
                        }
                        if j + 1 < n && source.get_char(j) == '.' && char_is_numeric(
                            source.get_char(j + 1),
                        ) {
                            let ghost d = j as int;
                            j = j + 1;
                            while j < n && char_is_numeric(source.get_char(j))
                                invariant
                                    d + 1 <= j as int <= n as int,
                                    num_run_end(source@, d + 1) == num_run_end(source@, j as int),
                                decreases n - j,
                            {
                                j = j + 1;
                            }
                        }
                        let lexeme = source.substring_char(i, j);
                        proof {
                            lemma_step_token(source@, i0, l0, j as int, l0, tks0, Token { typ: Type::Number(lexeme), line: lines }, errs0);
                        }
                        tokens.push(Token { typ: Type::Number(lexeme), line: lines });
                        i = j;
                    } else if char_is_alphabetic(c) {
                        // An identifier candidate: a maximal alphanumeric
                        // run, then one keyword-table lookup.
                        let mut j: usize = i + 1;
                        while j < n && char_is_alphanumeric(source.get_char(j))
                            invariant
                                i0 + 1 <= j as int <= n as int,
                                ident_run_end(source@, i0 + 1) == ident_run_end(source@, j as int),
                            decreases n - j,
                        {
                            j = j + 1;
                        }
                        let span = source.substring_char(i, j);
                        let t = crate::token::keyword_or_identifier(span);
                        proof {
                            lemma_step_token(source@, i0, l0, j as int, l0, tks0, Token { typ: t, line: lines }, errs0);
                        }
                        tokens.push(Token { typ: t, line: lines });
                        i = j;
                    } else {
                        let idx = byte_index_of(source, i);
                        proof {
                            lemma_step_error(source@, i0, l0, i0 + 1, l0, tks0, errs0, Error::InvalidCharacter { character: c, line: lines, index: idx });
                        }
                        errors.push(
                            Error::InvalidCharacter { character: c, line: lines, index: idx },
                        );
                        i = i + 1;
                    }
                }
            }
        }
        proof {
            assert(views_of_tokens(tokens@) + scan_from(source@, i as int, lines as nat).tokens
                =~= views_of_tokens(tokens@));
            assert(views_of_errors(errors@) + scan_from(source@, i as int, lines as nat).errors
                =~= views_of_errors(errors@));
        }
        Scanner { source, tokens, errors, lines }
    }

    /// The original source text the scan was performed on.
    #[must_use]
    pub fn source(&self) -> (r: &'a str)
        ensures
            r@ == self@.source,
    {
        self.source
    }

    /// The produced tokens, in left-to-right discovery order.
    #[must_use]
    pub fn tokens(&self) -> (r: &[Token<'a>])
        ensures
            views_of_tokens(r@) == self@.tokens,
    {
        self.tokens.as_slice()
    }

    /// The recovered errors, in discovery order.
    #[must_use]
    pub fn errors(&self) -> (r: &[Error])
        ensures
            views_of_errors(r@) == self@.errors,
    {
        self.errors.as_slice()
    }

    /// The final line count: 1 plus the number of newline characters
    /// consumed anywhere in the source.
    #[must_use]
    pub fn lines(&self) -> (r: usize)
        ensures
            r as nat == self@.lines,
    {
        self.lines
    }
}

} // verus!
