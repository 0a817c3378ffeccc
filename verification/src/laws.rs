//! Laws of the scan: properties that hold of every scan result, proved
//! once and for all against the model that [`crate::scanner::Scanner::parse`]
//! is specified by.

use crate::scanner::{
    comment_body_end, ident_run_end, is_alphabetic_char, is_numeric_char, lemma_comment_body_end,
    lemma_ident_run_end, lemma_num_run_end, lemma_string_body_end, newline_count, num_run_end,
    number_end, scan_from, scan_of, string_body_end, with_error, with_token, ErrorView,
    ScanModel,
};
use crate::token::{display_of, ident_kind_of, TokenView, TypeView};
use vstd::prelude::*;

verus! {

/// Law: the scan is deterministic. The whole result — tokens, errors and
/// line count — is a pure function of the source text, so scanning equal
/// sources always produces equal results.
pub proof fn lemma_scan_deterministic(src1: Seq<char>, src2: Seq<char>)
    requires
        src1 == src2,
    ensures
        scan_of(src1) == scan_of(src2),
{
}

// ---------------------------------------------------------------------------
// Newline accounting
// ---------------------------------------------------------------------------
proof fn lemma_newline_count_append(a: Seq<char>, b: Seq<char>)
    ensures
        newline_count(a + b) == newline_count(a) + newline_count(b),
    decreases b.len(),
{
    if b.len() == 0 {
        assert(a + b =~= a);
    } else {
        lemma_newline_count_append(a, b.drop_last());
        assert((a + b).drop_last() =~= a + b.drop_last());
        assert((a + b).last() == b.last());
    }
}

proof fn lemma_newline_count_split(s: Seq<char>, a: int, m: int, b: int)
    requires
        0 <= a <= m <= b <= s.len(),
    ensures
        newline_count(s.subrange(a, b)) == newline_count(s.subrange(a, m)) + newline_count(
            s.subrange(m, b),
        ),
{
    assert(s.subrange(a, b) =~= s.subrange(a, m) + s.subrange(m, b));
    lemma_newline_count_append(s.subrange(a, m), s.subrange(m, b));
}

proof fn lemma_newline_count_none(s: Seq<char>, a: int, b: int)
    requires
        0 <= a <= b <= s.len(),
        forall|k: int| a <= k < b ==> #[trigger] s[k] != '\n',
    ensures
        newline_count(s.subrange(a, b)) == 0,
    decreases b - a,
{
    if a < b {
        assert(s.subrange(a, b).drop_last() =~= s.subrange(a, b - 1));
        assert(s.subrange(a, b).last() == s[b - 1]);
        lemma_newline_count_none(s, a, b - 1);
    }
}

proof fn lemma_newline_count_one(s: Seq<char>, e: int)
    requires
        0 <= e < s.len(),
        s[e] == '\n',
    ensures
        newline_count(s.subrange(e, e + 1)) == 1,
{
    assert(newline_count(Seq::<char>::empty()) == 0);
    assert(s.subrange(e, e + 1).drop_last() =~= Seq::<char>::empty());
    assert(s.subrange(e, e + 1).last() == s[e]);
}

/// A step that consumes the newline-free range `[a, b)` leaves the newline
/// count of the remaining suffix unchanged.
proof fn lemma_step_count_zero(s: Seq<char>, a: int, b: int)
    requires
        0 <= a <= b <= s.len(),
        forall|k: int| a <= k < b ==> #[trigger] s[k] != '\n',
    ensures
        newline_count(s.subrange(a, s.len() as int)) == newline_count(
            s.subrange(b, s.len() as int),
        ),
{
    lemma_newline_count_split(s, a, b, s.len() as int);
    lemma_newline_count_none(s, a, b);
}

proof fn lemma_scan_from_lines(s: Seq<char>, i: int, line: nat)
    requires
        0 <= i <= s.len(),
    ensures
        scan_from(s, i, line).lines == line + newline_count(s.subrange(i, s.len() as int)),
    decreases s.len() - i,
{
    let n = s.len() as int;
    if i >= n {
        assert(s.subrange(i, n) =~= Seq::<char>::empty());
    } else {
        let c = s[i];
        if c == '(' || c == ')' || c == '{' || c == '}' || c == ',' || c == '.' || c == '-' || c
            == '+' || c == ';' || c == '*' {
            lemma_scan_from_lines(s, i + 1, line);
            lemma_step_count_zero(s, i, i + 1);
        } else if c == '!' || c == '=' || c == '<' || c == '>' {
            if i + 1 < n && s[i + 1] == '=' {
                lemma_scan_from_lines(s, i + 2, line);
                lemma_step_count_zero(s, i, i + 2);
            } else {
                lemma_scan_from_lines(s, i + 1, line);
                lemma_step_count_zero(s, i, i + 1);
            }
        } else if c == '/' {
            if i + 1 < n && s[i + 1] == '/' {
                let e = comment_body_end(s, i + 1);
                lemma_comment_body_end(s, i + 1);
                if e < n {
                    lemma_scan_from_lines(s, e + 1, line + 1);
                    lemma_newline_count_split(s, i, e, n);
                    lemma_newline_count_split(s, e, e + 1, n);
                    lemma_newline_count_none(s, i, e);
                    lemma_newline_count_one(s, e);
                } else {
                    lemma_newline_count_none(s, i, n);
                }
            } else {
                lemma_scan_from_lines(s, i + 1, line);
                lemma_step_count_zero(s, i, i + 1);
            }
        } else if c == '"' {
            let e = string_body_end(s, i + 1);
            lemma_string_body_end(s, i + 1);
            if e < n {
                lemma_scan_from_lines(s, e + 1, line + newline_count(s.subrange(i + 1, e)));
                lemma_newline_count_split(s, i, i + 1, n);
                lemma_newline_count_none(s, i, i + 1);
                lemma_newline_count_split(s, i + 1, e, n);
                lemma_newline_count_split(s, e, e + 1, n);
                lemma_newline_count_none(s, e, e + 1);
            } else {
                lemma_newline_count_split(s, i, i + 1, n);
                lemma_newline_count_none(s, i, i + 1);
            }
        } else if c == '\n' {
            lemma_scan_from_lines(s, i + 1, line + 1);
            lemma_newline_count_split(s, i, i + 1, n);
            lemma_newline_count_one(s, i);
        } else if c == ' ' || c == '\r' || c == '\t' {
            lemma_scan_from_lines(s, i + 1, line);
            lemma_step_count_zero(s, i, i + 1);
        } else if is_numeric_char(c) {
            let e = number_end(s, i);
            let d = num_run_end(s, i + 1);
            lemma_num_run_end(s, i + 1);
            if d + 1 < n && s[d] == '.' && is_numeric_char(s[d + 1]) {
                lemma_num_run_end(s, d + 1);
            }
            lemma_scan_from_lines(s, e, line);
            lemma_step_count_zero(s, i, e);
        } else if is_alphabetic_char(c) {
            let e = ident_run_end(s, i + 1);
            lemma_ident_run_end(s, i + 1);
            lemma_scan_from_lines(s, e, line);
            lemma_step_count_zero(s, i, e);
        } else {
            lemma_scan_from_lines(s, i + 1, line);
            lemma_step_count_zero(s, i, i + 1);
        }
    }
}

/// Law: the final line count equals 1 plus the number of newline characters
/// in the source, regardless of where those newlines occur — in comments,
/// inside string literals (terminated or not), or in bare source.
pub proof fn lemma_line_count(src: Seq<char>)
    ensures
        scan_of(src).lines == 1 + newline_count(src),
{
    lemma_scan_from_lines(src, 0, 1);
    assert(src.subrange(0, src.len() as int) =~= src);
}

// ---------------------------------------------------------------------------
// Token line order
// ---------------------------------------------------------------------------
/// The token lines never decrease across a token sequence in discovery
/// order.
pub open spec fn lines_nondecreasing(ts: Seq<TokenView>) -> bool {
    forall|a: int, b: int|
        0 <= a <= b < ts.len() ==> (#[trigger] ts[a]).line <= (#[trigger] ts[b]).line
}

proof fn lemma_nondecreasing_cons(tv: TokenView, ts: Seq<TokenView>, line: nat)
    requires
        line <= tv.line,
        forall|k: int| 0 <= k < ts.len() ==> tv.line <= (#[trigger] ts[k]).line,
        lines_nondecreasing(ts),
    ensures
        lines_nondecreasing(seq![tv] + ts),
        forall|k: int|
            0 <= k < (seq![tv] + ts).len() ==> line <= (#[trigger] (seq![tv] + ts)[k]).line,
{
    assert forall|a: int, b: int|
        0 <= a <= b < (seq![tv] + ts).len() implies (#[trigger] (seq![tv] + ts)[a]).line <= (
    #[trigger] (seq![tv] + ts)[b]).line by {
        if a > 0 {
            assert((seq![tv] + ts)[a] == ts[a - 1]);
            assert((seq![tv] + ts)[b] == ts[b - 1]);
        } else if b > 0 {
            assert((seq![tv] + ts)[b] == ts[b - 1]);
        }
    }
    assert forall|k: int| 0 <= k < (seq![tv] + ts).len() implies line <= (#[trigger] (seq![tv]
        + ts)[k]).line by {
        if k > 0 {
            assert((seq![tv] + ts)[k] == ts[k - 1]);
        }
    }
}

proof fn lemma_scan_from_token_lines(s: Seq<char>, i: int, line: nat)
    requires
        0 <= i <= s.len(),
    ensures
        forall|k: int|
            0 <= k < scan_from(s, i, line).tokens.len() ==> line <= (#[trigger] scan_from(
                s,
                i,
                line,
            ).tokens[k]).line,
        lines_nondecreasing(scan_from(s, i, line).tokens),
    decreases s.len() - i,
{
    let n = s.len() as int;
    if i < n {
        let c = s[i];
        if c == '(' || c == ')' || c == '{' || c == '}' || c == ',' || c == '.' || c == '-' || c
            == '+' || c == ';' || c == '*' {
            lemma_scan_from_token_lines(s, i + 1, line);
            lemma_nondecreasing_cons(
                TokenView { typ: scan_from(s, i, line).tokens[0].typ, line },
                scan_from(s, i + 1, line).tokens,
                line,
            );
        } else if c == '!' || c == '=' || c == '<' || c == '>' {
            if i + 1 < n && s[i + 1] == '=' {
                lemma_scan_from_token_lines(s, i + 2, line);
                lemma_nondecreasing_cons(
                    TokenView { typ: scan_from(s, i, line).tokens[0].typ, line },
                    scan_from(s, i + 2, line).tokens,
                    line,
                );
            } else {
                lemma_scan_from_token_lines(s, i + 1, line);
                lemma_nondecreasing_cons(
                    TokenView { typ: scan_from(s, i, line).tokens[0].typ, line },
                    scan_from(s, i + 1, line).tokens,
                    line,
                );
            }
        } else if c == '/' {
            if i + 1 < n && s[i + 1] == '/' {
                let e = comment_body_end(s, i + 1);
                lemma_comment_body_end(s, i + 1);
                if e < n {
                    lemma_scan_from_token_lines(s, e + 1, line + 1);
                }
            } else {
                lemma_scan_from_token_lines(s, i + 1, line);
                lemma_nondecreasing_cons(
                    TokenView { typ: scan_from(s, i, line).tokens[0].typ, line },
                    scan_from(s, i + 1, line).tokens,
                    line,
                );
            }
        } else if c == '"' {
            let e = string_body_end(s, i + 1);
            lemma_string_body_end(s, i + 1);
            if e < n {
                let l2 = line + newline_count(s.subrange(i + 1, e));
                lemma_scan_from_token_lines(s, e + 1, l2);
                lemma_nondecreasing_cons(
                    TokenView { typ: scan_from(s, i, line).tokens[0].typ, line: l2 },
                    scan_from(s, e + 1, l2).tokens,
                    line,
                );
            }
        } else if c == '\n' {
            lemma_scan_from_token_lines(s, i + 1, line + 1);
            assert forall|k: int| 0 <= k < scan_from(s, i, line).tokens.len() implies line <= (
            #[trigger] scan_from(s, i, line).tokens[k]).line by {
                assert(scan_from(s, i, line).tokens[k] == scan_from(s, i + 1, line + 1).tokens[k]);
            }
        } else if c == ' ' || c == '\r' || c == '\t' {
            lemma_scan_from_token_lines(s, i + 1, line);
        } else if is_numeric_char(c) {
            let e = number_end(s, i);
            let d = num_run_end(s, i + 1);
            lemma_num_run_end(s, i + 1);
            if d + 1 < n && s[d] == '.' && is_numeric_char(s[d + 1]) {
                lemma_num_run_end(s, d + 1);
            }
            lemma_scan_from_token_lines(s, e, line);
            lemma_nondecreasing_cons(
                TokenView { typ: scan_from(s, i, line).tokens[0].typ, line },
                scan_from(s, e, line).tokens,
                line,
            );
        } else if is_alphabetic_char(c) {
            let e = ident_run_end(s, i + 1);
            lemma_ident_run_end(s, i + 1);
            lemma_scan_from_token_lines(s, e, line);
            lemma_nondecreasing_cons(
                TokenView { typ: scan_from(s, i, line).tokens[0].typ, line },
                scan_from(s, e, line).tokens,
                line,
            );
        } else {
            lemma_scan_from_token_lines(s, i + 1, line);
        }
    }
}

/// Law: token line numbers are non-decreasing across the token sequence in
/// discovery order.
pub proof fn lemma_token_lines_nondecreasing(src: Seq<char>)
    ensures
        lines_nondecreasing(scan_of(src).tokens),
{
    lemma_scan_from_token_lines(src, 0, 1);
}

// ---------------------------------------------------------------------------
// Payloads and error kinds
// ---------------------------------------------------------------------------
/// The text payload carried by a literal kind, when there is one.
pub open spec fn payload_of(t: TypeView) -> Option<Seq<char>> {
    match t {
        TypeView::Identifier(s) => Some(s),
        TypeView::String(s) => Some(s),
        TypeView::Number(s) => Some(s),
        _ => None,
    }
}

/// `p` occurs as a contiguous range of `src`.
pub open spec fn is_substring_of(p: Seq<char>, src: Seq<char>) -> bool {
    exists|a: int, b: int| 0 <= a <= b <= src.len() && p == #[trigger] src.subrange(a, b)
}

/// A kind whose payload, if any, is an exact substring of `src`.
pub open spec fn payload_in_source(t: TypeView, src: Seq<char>) -> bool {
    match payload_of(t) {
        Some(p) => is_substring_of(p, src),
        None => true,
    }
}

/// An error kind the scan itself can recover from.
pub open spec fn is_scan_error(e: ErrorView) -> bool {
    e matches ErrorView::InvalidCharacter { .. } || e matches ErrorView::UnterminatedLiteral
}

/// Every token of the model suffix `m` carries a payload drawn from
/// `src`, and every error of it is a kind the scan can produce.
pub open spec fn emissions_ok(m: ScanModel, src: Seq<char>) -> bool {
    &&& forall|k: int|
        0 <= k < m.tokens.len() ==> payload_in_source((#[trigger] m.tokens[k]).typ, src)
    &&& forall|k: int| 0 <= k < m.errors.len() ==> is_scan_error(#[trigger] m.errors[k])
}

proof fn lemma_emissions_step_token(
    s: Seq<char>,
    i0: int,
    line0: nat,
    i1: int,
    line1: nat,
    t: TypeView,
    tline: nat,
)
    requires
        scan_from(s, i0, line0) == with_token(t, tline, scan_from(s, i1, line1)),
        payload_in_source(t, s),
        emissions_ok(scan_from(s, i1, line1), s),
    ensures
        emissions_ok(scan_from(s, i0, line0), s),
{
    let m0 = scan_from(s, i0, line0);
    let m1 = scan_from(s, i1, line1);
    let tv = TokenView { typ: t, line: tline };
    assert forall|k: int| 0 <= k < m0.tokens.len() implies payload_in_source(
        (#[trigger] m0.tokens[k]).typ,
        s,
    ) by {
        assert(m0.tokens == seq![tv] + m1.tokens);
        if k == 0 {
            assert(m0.tokens[k] == tv);
        } else {
            assert(m0.tokens[k] == m1.tokens[k - 1]);
        }
    }
    assert forall|k: int| 0 <= k < m0.errors.len() implies is_scan_error(
        #[trigger] m0.errors[k],
    ) by {
        assert(m0.errors[k] == m1.errors[k]);
    }
}

proof fn lemma_emissions_step_error(
    s: Seq<char>,
    i0: int,
    line0: nat,
    i1: int,
    line1: nat,
    ev: ErrorView,
)
    requires
        scan_from(s, i0, line0) == with_error(ev, scan_from(s, i1, line1)),
        is_scan_error(ev),
        emissions_ok(scan_from(s, i1, line1), s),
    ensures
        emissions_ok(scan_from(s, i0, line0), s),
{
    let m0 = scan_from(s, i0, line0);
    let m1 = scan_from(s, i1, line1);
    assert forall|k: int| 0 <= k < m0.tokens.len() implies payload_in_source(
        (#[trigger] m0.tokens[k]).typ,
        s,
    ) by {
        assert(m0.tokens[k] == m1.tokens[k]);
    }
    assert forall|k: int| 0 <= k < m0.errors.len() implies is_scan_error(
        #[trigger] m0.errors[k],
    ) by {
        assert(m0.errors == seq![ev] + m1.errors);
        if k == 0 {
            assert(m0.errors[k] == ev);
        } else {
            assert(m0.errors[k] == m1.errors[k - 1]);
        }
    }
}

proof fn lemma_emissions_skip(s: Seq<char>, i0: int, line0: nat, i1: int, line1: nat)
    requires
        scan_from(s, i0, line0) == scan_from(s, i1, line1),
        emissions_ok(scan_from(s, i1, line1), s),
    ensures
        emissions_ok(scan_from(s, i0, line0), s),
{
    let m0 = scan_from(s, i0, line0);
    let m1 = scan_from(s, i1, line1);
    assert forall|k: int| 0 <= k < m0.tokens.len() implies payload_in_source(
        (#[trigger] m0.tokens[k]).typ,
        s,
    ) by {
        assert(m0.tokens[k] == m1.tokens[k]);
    }
    assert forall|k: int| 0 <= k < m0.errors.len() implies is_scan_error(
        #[trigger] m0.errors[k],
    ) by {
        assert(m0.errors[k] == m1.errors[k]);
    }
}

#[verifier::rlimit(100)]
proof fn lemma_scan_from_emissions(s: Seq<char>, i: int, line: nat)
    requires
        0 <= i <= s.len(),
    ensures
        emissions_ok(scan_from(s, i, line), s),
    decreases s.len() - i,
{
    let n = s.len() as int;
    if i >= n {
        assert(scan_from(s, i, line).tokens.len() == 0);
        assert(scan_from(s, i, line).errors.len() == 0);
    } else {
        let c = s[i];
        if c == '(' {
            lemma_scan_from_emissions(s, i + 1, line);
            lemma_emissions_step_token(s, i, line, i + 1, line, TypeView::LeftParent, line);
        } else if c == ')' {
            lemma_scan_from_emissions(s, i + 1, line);
            lemma_emissions_step_token(s, i, line, i + 1, line, TypeView::RightParent, line);
        } else if c == '{' {
            lemma_scan_from_emissions(s, i + 1, line);
            lemma_emissions_step_token(s, i, line, i + 1, line, TypeView::LeftBrace, line);
        } else if c == '}' {
            lemma_scan_from_emissions(s, i + 1, line);
            lemma_emissions_step_token(s, i, line, i + 1, line, TypeView::RightBrace, line);
        } else if c == ',' {
            lemma_scan_from_emissions(s, i + 1, line);
            lemma_emissions_step_token(s, i, line, i + 1, line, TypeView::Comma, line);
        } else if c == '.' {
            lemma_scan_from_emissions(s, i + 1, line);
            lemma_emissions_step_token(s, i, line, i + 1, line, TypeView::Dot, line);
        } else if c == '-' {
            lemma_scan_from_emissions(s, i + 1, line);
            lemma_emissions_step_token(s, i, line, i + 1, line, TypeView::Minus, line);
        } else if c == '+' {
            lemma_scan_from_emissions(s, i + 1, line);
            lemma_emissions_step_token(s, i, line, i + 1, line, TypeView::Plus, line);
        } else if c == ';' {
            lemma_scan_from_emissions(s, i + 1, line);
            lemma_emissions_step_token(s, i, line, i + 1, line, TypeView::Semicolon, line);
        } else if c == '*' {
            lemma_scan_from_emissions(s, i + 1, line);
            lemma_emissions_step_token(s, i, line, i + 1, line, TypeView::Star, line);
        } else if c == '!' {
            if i + 1 < n && s[i + 1] == '=' {
                lemma_scan_from_emissions(s, i + 2, line);
                lemma_emissions_step_token(s, i, line, i + 2, line, TypeView::BangEqual, line);
            } else {
                lemma_scan_from_emissions(s, i + 1, line);
                lemma_emissions_step_token(s, i, line, i + 1, line, TypeView::Bang, line);
            }
        } else if c == '=' {
            if i + 1 < n && s[i + 1] == '=' {
                lemma_scan_from_emissions(s, i + 2, line);
                lemma_emissions_step_token(s, i, line, i + 2, line, TypeView::EqualEqual, line);
            } else {
                lemma_scan_from_emissions(s, i + 1, line);
                lemma_emissions_step_token(s, i, line, i + 1, line, TypeView::Equal, line);
            }
        } else if c == '<' {
            if i + 1 < n && s[i + 1] == '=' {
                lemma_scan_from_emissions(s, i + 2, line);
                lemma_emissions_step_token(s, i, line, i + 2, line, TypeView::LessEqual, line);
            } else {
                lemma_scan_from_emissions(s, i + 1, line);
                lemma_emissions_step_token(s, i, line, i + 1, line, TypeView::Less, line);
            }
        } else if c == '>' {
            if i + 1 < n && s[i + 1] == '=' {
                lemma_scan_from_emissions(s, i + 2, line);
                lemma_emissions_step_token(s, i, line, i + 2, line, TypeView::GreaterEqual, line);
            } else {
                lemma_scan_from_emissions(s, i + 1, line);
                lemma_emissions_step_token(s, i, line, i + 1, line, TypeView::Greater, line);
            }
        } else if c == '/' {
            if i + 1 < n && s[i + 1] == '/' {
                let e = comment_body_end(s, i + 1);
                lemma_comment_body_end(s, i + 1);
                if e < n {
                    lemma_scan_from_emissions(s, e + 1, line + 1);
                    lemma_emissions_skip(s, i, line, e + 1, line + 1);
                } else {
                    assert(scan_from(s, i, line).tokens.len() == 0);
                    assert(scan_from(s, i, line).errors.len() == 0);
                }
            } else {
                lemma_scan_from_emissions(s, i + 1, line);
                lemma_emissions_step_token(s, i, line, i + 1, line, TypeView::Slash, line);
            }
        } else if c == '"' {
            let e = string_body_end(s, i + 1);
            lemma_string_body_end(s, i + 1);
            let l2 = line + newline_count(s.subrange(i + 1, e));
            if e < n {
                lemma_scan_from_emissions(s, e + 1, l2);
                assert(is_substring_of(s.subrange(i + 1, e), s));
                lemma_emissions_step_token(
                    s,
                    i,
                    line,
                    e + 1,
                    l2,
                    TypeView::String(s.subrange(i + 1, e)),
                    l2,
                );
            } else {
                lemma_scan_from_emissions(s, n, l2);
                assert(scan_from(s, i, line) =~= with_error(
                    ErrorView::UnterminatedLiteral,
                    scan_from(s, n, l2),
                ));
                lemma_emissions_step_error(s, i, line, n, l2, ErrorView::UnterminatedLiteral);
            }
        } else if c == '\n' {
            lemma_scan_from_emissions(s, i + 1, line + 1);
            lemma_emissions_skip(s, i, line, i + 1, line + 1);
        } else if c == ' ' || c == '\r' || c == '\t' {
            lemma_scan_from_emissions(s, i + 1, line);
            lemma_emissions_skip(s, i, line, i + 1, line);
        } else if is_numeric_char(c) {
            let e = number_end(s, i);
            let d = num_run_end(s, i + 1);
            lemma_num_run_end(s, i + 1);
            if d + 1 < n && s[d] == '.' && is_numeric_char(s[d + 1]) {
                lemma_num_run_end(s, d + 1);
            }
            lemma_scan_from_emissions(s, e, line);
            assert(is_substring_of(s.subrange(i, e), s));
            lemma_emissions_step_token(s, i, line, e, line, TypeView::Number(s.subrange(i, e)), line);
        } else if is_alphabetic_char(c) {
            let e = ident_run_end(s, i + 1);
            lemma_ident_run_end(s, i + 1);
            lemma_scan_from_emissions(s, e, line);
            assert(is_substring_of(s.subrange(i, e), s));
            assert(payload_in_source(ident_kind_of(s.subrange(i, e)), s));
            lemma_emissions_step_token(
                s,
                i,
                line,
                e,
                line,
                ident_kind_of(s.subrange(i, e)),
                line,
            );
        } else {
            lemma_scan_from_emissions(s, i + 1, line);
            lemma_emissions_step_error(
                s,
                i,
                line,
                i + 1,
                line,
                ErrorView::InvalidCharacter {
                    character: c,
                    line: line,
                    index: crate::scanner::byte_index(s, i),
                },
            );
        }
    }
}

/// Law: every literal-carrying token holds an exact substring of the
/// original source — an identifier or number its whole lexeme, a string
/// the text strictly between its two delimiting quotes.
pub proof fn lemma_payloads_are_substrings(src: Seq<char>)
    ensures
        forall|k: int|
            0 <= k < scan_of(src).tokens.len() ==> payload_in_source(
                (#[trigger] scan_of(src).tokens[k]).typ,
                src,
            ),
{
    lemma_scan_from_emissions(src, 0, 1);
}

/// Law: the scan itself recovers only from invalid characters and
/// unterminated string literals; an invalid-number failure can arise only
/// from downstream numeric conversion of a number lexeme.
pub proof fn lemma_scan_error_kinds(src: Seq<char>)
    ensures
        forall|k: int|
            0 <= k < scan_of(src).errors.len() ==> is_scan_error(
                #[trigger] scan_of(src).errors[k],
            ),
{
    lemma_scan_from_emissions(src, 0, 1);
}

// ---------------------------------------------------------------------------
// Round trip of punctuation and operators
// ---------------------------------------------------------------------------
/// A token kind with a fixed punctuation or operator spelling: one that
/// carries no payload and is recognized by the dispatch table alone.
pub open spec fn is_operator_kind(t: TypeView) -> bool {
    match t {
        TypeView::LeftParent => true,
        TypeView::RightParent => true,
        TypeView::LeftBrace => true,
        TypeView::RightBrace => true,
        TypeView::Comma => true,
        TypeView::Dot => true,
        TypeView::Minus => true,
        TypeView::Plus => true,
        TypeView::Semicolon => true,
        TypeView::Slash => true,
        TypeView::Star => true,
        TypeView::Bang => true,
        TypeView::BangEqual => true,
        TypeView::Equal => true,
        TypeView::EqualEqual => true,
        TypeView::Greater => true,
        TypeView::GreaterEqual => true,
        TypeView::Less => true,
        TypeView::LessEqual => true,
        _ => false,
    }
}

/// The display forms of the given kinds joined with single spaces.
pub open spec fn render_ops(ks: Seq<TypeView>) -> Seq<char>
    decreases ks.len(),
{
    if ks.len() == 0 {
        seq![]
    } else if ks.len() == 1 {
        display_of(ks[0])
    } else {
        display_of(ks[0]) + seq![' '] + render_ops(ks.drop_first())
    }
}

proof fn lemma_round_trip_from(ks: Seq<TypeView>, s: Seq<char>, i: int, line: nat)
    requires
        0 <= i <= s.len(),
        s.subrange(i, s.len() as int) == render_ops(ks),
        forall|k: int| 0 <= k < ks.len() ==> is_operator_kind(#[trigger] ks[k]),
    ensures
        scan_from(s, i, line) == (ScanModel {
            tokens: Seq::new(ks.len(), (|k: int| TokenView { typ: ks[k], line })),
            errors: Seq::<ErrorView>::empty(),
            lines: line,
        }),
    decreases ks.len(),
{
    let n = s.len() as int;
    if ks.len() == 0 {
        assert(i == n);
        assert(scan_from(s, i, line) =~= ScanModel {
            tokens: Seq::new(ks.len(), (|k: int| TokenView { typ: ks[k], line })),
            errors: Seq::<ErrorView>::empty(),
            lines: line,
        });
    } else {
        let k0 = ks[0];
        let rest = ks.drop_first();
        let d = display_of(k0);
        let w = d.len() as int;
        assert(is_operator_kind(k0));
        assert forall|k: int| 0 <= k < rest.len() implies is_operator_kind(#[trigger] rest[k]) by {
            assert(rest[k] == ks[k + 1]);
        }
        assert(1 <= w <= 2);
        if ks.len() == 1 {
            assert(render_ops(ks) == d);
        } else {
            assert(render_ops(ks) == d + seq![' '] + render_ops(rest));
        }
        assert(n - i == render_ops(ks).len());
        assert(i < n);
        assert(s[i] == s.subrange(i, n)[0]);
        assert(s[i] == d[0]);
        if w == 2 {
            assert(s[i + 1] == s.subrange(i, n)[1]);
            assert(s[i + 1] == d[1]);
        }
        let i1 = i + w;
        if ks.len() == 1 {
            assert(i1 == n);
            assert(s.subrange(i1, n) =~= render_ops(rest));
            lemma_round_trip_from(rest, s, i1, line);
            assert(scan_from(s, i, line) == with_token(k0, line, scan_from(s, i1, line)));
        } else {
            assert(n - i == w + 1 + render_ops(rest).len());
            assert(s[i1] == s.subrange(i, n)[w]);
            assert(s[i1] == ' ');
            assert forall|k: int|
                0 <= k < render_ops(rest).len() implies s.subrange(i1 + 1, n)[k] == render_ops(
                rest,
            )[k] by {
                assert(s.subrange(i1 + 1, n)[k] == s[i1 + 1 + k]);
                assert(s[i1 + 1 + k] == s.subrange(i, n)[w + 1 + k]);
            }
            assert(s.subrange(i1 + 1, n) =~= render_ops(rest));
            lemma_round_trip_from(rest, s, i1 + 1, line);
            assert(scan_from(s, i1, line) == scan_from(s, i1 + 1, line));
            assert(scan_from(s, i, line) == with_token(k0, line, scan_from(s, i1, line)));
        }
        assert(scan_from(s, i, line) =~= ScanModel {
            tokens: Seq::new(ks.len(), (|k: int| TokenView { typ: ks[k], line })),
            errors: Seq::<ErrorView>::empty(),
            lines: line,
        });
    }
}

/// Law: round trip. A source made only of recognized punctuation and
/// operator display forms joined by single spaces re-scans with no errors
/// to exactly that kind sequence, every token on line 1.
pub proof fn lemma_operator_round_trip(ks: Seq<TypeView>)
    requires
        forall|k: int| 0 <= k < ks.len() ==> is_operator_kind(#[trigger] ks[k]),
    ensures
        scan_of(render_ops(ks)).errors == Seq::<ErrorView>::empty(),
        scan_of(render_ops(ks)).lines == 1,
        scan_of(render_ops(ks)).tokens == Seq::new(
            ks.len(),
            (|k: int| TokenView { typ: ks[k], line: 1 }),
        ),
{
    let s = render_ops(ks);
    assert(s.subrange(0, s.len() as int) =~= s);
    lemma_round_trip_from(ks, s, 0, 1);
}

} // verus!
