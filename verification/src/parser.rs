//! Parser for the wikitext token stream.
//!
//! The grammar is context-sensitive: the heading rule first recognizes a
//! maximal run of `=` delimiters, then threads that count through as the
//! exact number of closing delimiters it requires — a run of a different
//! length is a hard parse failure, never a heading of another level. No
//! rule returns a partial tree: every violation surfaces a structured
//! error carrying the failing token position and what was expected.

use vstd::prelude::*;

use crate::ast::{trim_chars, trim_seq, Heading, HeadingModel, Stmt, StmtModel};
use crate::lexer::{str_chars, tokens_text, Token, TokenModel};

verus! {

/// What a parse rule expected and did not find.
#[derive(Debug, Clone, PartialEq, Eq, Structural)]
pub enum ParseErrorKind {
    /// The input does not open with a run of `=` delimiters.
    ExpectedHeading,
    /// The input holds `=` delimiters and nothing else.
    MissingHeadingText,
    /// The heading text runs to the end of the input with no closing
    /// delimiters.
    UnterminatedHeading,
    /// The closing delimiter run has a different length than the opening
    /// one.
    DelimiterCountMismatch { expected: usize, found: usize },
    /// Tokens remain after a complete construct.
    ExpectedEndOfInput,
    /// The input does not open with a table-start marker.
    ExpectedTableStart,
    /// The input ends inside a table, with no closing marker.
    UnterminatedTable,
    /// A header cell appears after body content has begun.
    MisplacedHeaderCell,
    /// A token that no table line may start with.
    UnexpectedToken,
    /// The input does not open with a `<` delimiter.
    ExpectedClassOpen,
    /// A word naming the element was expected.
    ExpectedClassName,
    /// The input ends inside an element, with no closing tag.
    UnterminatedClass,
    /// An attribute is not of the `key=value` form.
    MalformedAttribute,
    /// The closing tag names a different element than the opening tag.
    ClassNameMismatch,
}

/// A failed parse: the token position at fault, and what was expected.
#[derive(Debug, Clone, PartialEq, Eq, Structural)]
pub struct ParseError {
    pub at: usize,
    pub kind: ParseErrorKind,
}

/// The model of a [`ParseErrorKind`].
pub enum ParseErrorKindModel {
    ExpectedHeading,
    MissingHeadingText,
    UnterminatedHeading,
    DelimiterCountMismatch { expected: int, found: int },
    ExpectedEndOfInput,
    ExpectedTableStart,
    UnterminatedTable,
    MisplacedHeaderCell,
    UnexpectedToken,
    ExpectedClassOpen,
    ExpectedClassName,
    UnterminatedClass,
    MalformedAttribute,
    ClassNameMismatch,
}

/// The model of a [`ParseError`].
pub struct ParseErrorModel {
    pub at: int,
    pub kind: ParseErrorKindModel,
}

impl View for ParseErrorKind {
    type V = ParseErrorKindModel;

    open spec fn view(&self) -> ParseErrorKindModel {
        match self {
            ParseErrorKind::ExpectedHeading => ParseErrorKindModel::ExpectedHeading,
            ParseErrorKind::MissingHeadingText => ParseErrorKindModel::MissingHeadingText,
            ParseErrorKind::UnterminatedHeading => ParseErrorKindModel::UnterminatedHeading,
            ParseErrorKind::DelimiterCountMismatch { expected, found } =>
                ParseErrorKindModel::DelimiterCountMismatch {
                expected: *expected as int,
                found: *found as int,
            },
            ParseErrorKind::ExpectedEndOfInput => ParseErrorKindModel::ExpectedEndOfInput,
            ParseErrorKind::ExpectedTableStart => ParseErrorKindModel::ExpectedTableStart,
            ParseErrorKind::UnterminatedTable => ParseErrorKindModel::UnterminatedTable,
            ParseErrorKind::MisplacedHeaderCell => ParseErrorKindModel::MisplacedHeaderCell,
            ParseErrorKind::UnexpectedToken => ParseErrorKindModel::UnexpectedToken,
            ParseErrorKind::ExpectedClassOpen => ParseErrorKindModel::ExpectedClassOpen,
            ParseErrorKind::ExpectedClassName => ParseErrorKindModel::ExpectedClassName,
            ParseErrorKind::UnterminatedClass => ParseErrorKindModel::UnterminatedClass,
            ParseErrorKind::MalformedAttribute => ParseErrorKindModel::MalformedAttribute,
            ParseErrorKind::ClassNameMismatch => ParseErrorKindModel::ClassNameMismatch,
        }
    }
}

impl View for ParseError {
    type V = ParseErrorModel;

    open spec fn view(&self) -> ParseErrorModel {
        ParseErrorModel { at: self.at as int, kind: self.kind@ }
    }
}

/// The length of the maximal prefix of `ts` whose tokens all satisfy `p`.
pub open spec fn token_run(ts: Seq<TokenModel>, p: spec_fn(TokenModel) -> bool) -> nat
    decreases ts.len(),
{
    if ts.len() == 0 || !p(ts[0]) {
        0
    } else {
        (1 + token_run(ts.skip(1), p)) as nat
    }
}

/// Index-wise characterization of `token_run`.
pub proof fn lemma_token_run(ts: Seq<TokenModel>, p: spec_fn(TokenModel) -> bool)
    ensures
        token_run(ts, p) <= ts.len(),
        forall|i: int| 0 <= i < token_run(ts, p) ==> p(ts[i]),
        token_run(ts, p) < ts.len() ==> !p(ts[token_run(ts, p) as int]),
    decreases ts.len(),
{
    if ts.len() > 0 && p(ts[0]) {
        lemma_token_run(ts.skip(1), p);
        assert forall|i: int| 0 <= i < token_run(ts, p) implies p(ts[i]) by {
            if i > 0 {
                assert(p(ts.skip(1)[i - 1]));
            }
        }
        if token_run(ts, p) < ts.len() {
            assert(!p(ts.skip(1)[token_run(ts, p) - 1]));
        }
    }
}

/// `token_run` is the unique cut obeying the index-wise characterization.
pub proof fn lemma_token_run_is(ts: Seq<TokenModel>, p: spec_fn(TokenModel) -> bool, n: int)
    requires
        0 <= n <= ts.len(),
        forall|i: int| 0 <= i < n ==> p(ts[i]),
        n < ts.len() ==> !p(ts[n]),
    ensures
        token_run(ts, p) == n,
{
    lemma_token_run(ts, p);
    let m = token_run(ts, p) as int;
    if m < n {
        assert(p(ts[m]));
    } else if m > n {
        assert(p(ts[n]));
    }
}

/// The heading rule, on the whole token sequence:
/// a maximal run of one or more `Equal` tokens of length `L`, then one or
/// more non-`Equal` text tokens, then exactly `L` closing `Equal` tokens
/// reaching the end of the input. The heading's level is `L` and its text
/// is the text tokens' canonical form with surrounding whitespace trimmed.
/// Each violation is reported at the token position where it shows.
pub open spec fn spec_parse_heading(ts: Seq<TokenModel>) -> Result<HeadingModel, ParseErrorModel> {
    let l = token_run(ts, |t: TokenModel| t == TokenModel::Equal);
    if l == 0 {
        Err(ParseErrorModel { at: 0, kind: ParseErrorKindModel::ExpectedHeading })
    } else if l == ts.len() {
        Err(ParseErrorModel { at: l as int, kind: ParseErrorKindModel::MissingHeadingText })
    } else {
        let m = token_run(ts.skip(l as int), |t: TokenModel| t != TokenModel::Equal);
        let j = l + m;
        if j == ts.len() {
            Err(ParseErrorModel { at: j as int, kind: ParseErrorKindModel::UnterminatedHeading })
        } else {
            let c = token_run(ts.skip(j as int), |t: TokenModel| t == TokenModel::Equal);
            if c != l {
                Err(
                    ParseErrorModel {
                        at: j as int,
                        kind: ParseErrorKindModel::DelimiterCountMismatch {
                            expected: l as int,
                            found: c as int,
                        },
                    },
                )
            } else if j + c != ts.len() {
                Err(
                    ParseErrorModel {
                        at: (j + c) as int,
                        kind: ParseErrorKindModel::ExpectedEndOfInput,
                    },
                )
            } else {
                Ok(
                    HeadingModel {
                        level: l,
                        text: trim_seq(tokens_text(ts.subrange(l as int, j as int))),
                    },
                )
            }
        }
    }
}

/// A run of `l` `Equal` delimiter tokens.
pub open spec fn equal_tokens(l: nat) -> Seq<TokenModel> {
    Seq::new(l, |i: int| TokenModel::Equal)
}

/// The heading rule accepts its general shape: for any opening run length
/// `L >= 1` and any nonempty text of non-`Equal` tokens framed by single
/// spaces, parsing `=`×L, space, text, space, `=`×L yields a heading of
/// level exactly `L` whose text is the text tokens' canonical form,
/// whitespace-trimmed. Its serialization is then the canonical padded form
/// by [`crate::ast::Heading::to_string`]'s contract.
pub proof fn lemma_heading_grammar(l: nat, mid: Seq<TokenModel>)
    requires
        l >= 1,
        mid.len() >= 1,
        forall|i: int| 0 <= i < mid.len() ==> mid[i] != TokenModel::Equal,
    ensures
        spec_parse_heading(
            equal_tokens(l) + seq![TokenModel::Whitespace] + mid + seq![TokenModel::Whitespace]
                + equal_tokens(l),
        ) == Ok::<HeadingModel, ParseErrorModel>(
            HeadingModel { level: l, text: trim_seq(tokens_text(mid)) },
        ),
{
    let ts = equal_tokens(l) + seq![TokenModel::Whitespace] + mid + seq![TokenModel::Whitespace]
        + equal_tokens(l);
    let li = l as int;
    let mlen = mid.len() as int;
    assert(ts.len() == 2 * li + mlen + 2);
    let is_eq = |t: TokenModel| t == TokenModel::Equal;
    let non_eq = |t: TokenModel| t != TokenModel::Equal;
    assert forall|i: int| 0 <= i < li implies is_eq(ts[i]) by {
        assert(ts[i] == equal_tokens(l)[i]);
    }
    assert(ts[li] == TokenModel::Whitespace);
    lemma_token_run_is(ts, is_eq, li);
    let tail = ts.skip(li);
    assert(tail.len() == li + mlen + 2);
    assert forall|i: int| 0 <= i < mlen + 2 implies non_eq(tail[i]) by {
        assert(tail[i] == ts[li + i]);
        if i == 0 || i == mlen + 1 {
            assert(ts[li + i] == TokenModel::Whitespace);
        } else {
            assert(ts[li + i] == mid[i - 1]);
        }
    }
    assert(tail[mlen + 2] == ts[li + mlen + 2]);
    assert(ts[li + mlen + 2] == equal_tokens(l)[0]);
    lemma_token_run_is(tail, non_eq, mlen + 2);
    let j = li + mlen + 2;
    let closing = ts.skip(j);
    assert(closing.len() == li);
    assert forall|i: int| 0 <= i < li implies is_eq(closing[i]) by {
        assert(closing[i] == ts[j + i]);
        assert(ts[j + i] == equal_tokens(l)[i]);
    }
    lemma_token_run_is(closing, is_eq, li);
    let text_tokens = ts.subrange(li, j);
    assert(text_tokens =~= seq![TokenModel::Whitespace] + mid + seq![TokenModel::Whitespace]);
    crate::lexer::lemma_tokens_text_concat(
        seq![TokenModel::Whitespace] + mid,
        seq![TokenModel::Whitespace],
    );
    crate::lexer::lemma_tokens_text_concat(seq![TokenModel::Whitespace], mid);
    assert(text_tokens =~= (seq![TokenModel::Whitespace] + mid) + seq![TokenModel::Whitespace]);
    let w = seq![TokenModel::Whitespace];
    assert(w.skip(1) =~= Seq::<TokenModel>::empty());
    assert(tokens_text(w.skip(1)) == Seq::<char>::empty());
    assert(tokens_text(w) == crate::lexer::token_text(w[0]) + tokens_text(w.skip(1)));
    assert(tokens_text(w) =~= seq![' ']);
    assert(tokens_text(text_tokens) =~= seq![' '] + tokens_text(mid) + seq![' ']);
    crate::ast::lemma_trim_pad_spaces(tokens_text(mid));
}

/// Delimiter-count mismatch is rejected: closing a heading with a run of a
/// different length than its opening run fails with a
/// delimiter-count-mismatch error naming both counts — it is never accepted
/// as a heading of either level.
pub proof fn lemma_heading_mismatch(l1: nat, l2: nat, mid: Seq<TokenModel>)
    requires
        l1 >= 1,
        l2 >= 1,
        l1 != l2,
        mid.len() >= 1,
        forall|i: int| 0 <= i < mid.len() ==> mid[i] != TokenModel::Equal,
    ensures
        spec_parse_heading(equal_tokens(l1) + mid + equal_tokens(l2)) == Err::<
            HeadingModel,
            ParseErrorModel,
        >(
            ParseErrorModel {
                at: l1 + mid.len() as int,
                kind: ParseErrorKindModel::DelimiterCountMismatch {
                    expected: l1 as int,
                    found: l2 as int,
                },
            },
        ),
{
    let ts = equal_tokens(l1) + mid + equal_tokens(l2);
    let li = l1 as int;
    let mlen = mid.len() as int;
    assert(ts.len() == li + mlen + l2);
    let is_eq = |t: TokenModel| t == TokenModel::Equal;
    let non_eq = |t: TokenModel| t != TokenModel::Equal;
    assert forall|i: int| 0 <= i < li implies is_eq(ts[i]) by {
        assert(ts[i] == equal_tokens(l1)[i]);
    }
    assert(ts[li] == mid[0]);
    lemma_token_run_is(ts, is_eq, li);
    let tail = ts.skip(li);
    assert forall|i: int| 0 <= i < mlen implies non_eq(tail[i]) by {
        assert(tail[i] == ts[li + i]);
        assert(ts[li + i] == mid[i]);
    }
    assert(tail[mlen] == ts[li + mlen]);
    assert(ts[li + mlen] == equal_tokens(l2)[0]);
    lemma_token_run_is(tail, non_eq, mlen);
    let j = li + mlen;
    let closing = ts.skip(j);
    assert(closing.len() == l2);
    assert forall|i: int| 0 <= i < l2 implies is_eq(closing[i]) by {
        assert(closing[i] == ts[j + i]);
        assert(ts[j + i] == equal_tokens(l2)[i]);
    }
    lemma_token_run_is(closing, is_eq, l2 as int);
}

/// Idempotence of the heading rule, shown for headings whose text is a
/// plain title — alphanumeric words separated by single spaces, the
/// shape parsing produces for plain heading text (see
/// [`crate::lexer::plain_title`]): serializing such a heading and parsing
/// the result again — lexing included — yields the heading unchanged.
/// Since [`lemma_heading_grammar`] pins what parsing produced in the
/// first place, re-parsing a re-serialized parse result is the identity
/// on this class of headings.
pub proof fn lemma_heading_idempotent(l: nat, w: Seq<char>)
    requires
        l >= 1,
        crate::lexer::plain_title(w),
    ensures
        ({
            let h = HeadingModel { level: l, text: w };
            let toks = equal_tokens(l) + seq![TokenModel::Whitespace]
                + crate::lexer::title_tokens(w) + seq![TokenModel::Whitespace] + equal_tokens(l);
            &&& crate::lexer::spec_lex(crate::ast::heading_text(h)) == Ok::<
                Seq<TokenModel>,
                int,
            >(toks)
            &&& spec_parse_heading(toks) == Ok::<HeadingModel, ParseErrorModel>(h)
        }),
{
    let h = HeadingModel { level: l, text: w };
    crate::lexer::lemma_lex_heading_canonical(l, w);
    assert(crate::ast::heading_text(h) == crate::lexer::char_repeat('=', l) + seq![' '] + w + seq![
        ' ',
    ] + crate::lexer::char_repeat('=', l));
    assert(equal_tokens(l) =~= Seq::new(l, |i: int| TokenModel::Equal));
    let mid = crate::lexer::title_tokens(w);
    crate::lexer::lemma_title_tokens(w);
    lemma_heading_grammar(l, mid);
    assert(trim_seq(tokens_text(mid)) == trim_seq(w));
    crate::ast::lemma_trim_front_skip(w, 0);
    assert(w.skip(0) =~= w);
    assert(!crate::ast::is_space_char(w[0]));
    assert(!crate::ast::is_space_char(w[w.len() - 1]));
    crate::ast::lemma_trim_back_take(w, w.len() as int);
    assert(w.take(w.len() as int) =~= w);
    assert(trim_seq(w) == w);
}

/// Whether the token is the `=` delimiter.
fn is_equal_token(t: &Token) -> (b: bool)
    ensures
        b == (t@ == TokenModel::Equal),
{
    matches!(t, Token::Equal)
}

/// The length of the run of `Equal` tokens starting at `i`.
fn equal_run_from(tokens: &Vec<Token>, i: usize) -> (n: usize)
    requires
        i <= tokens.len(),
    ensures
        n == token_run(
            tokens.deep_view().skip(i as int),
            |t: TokenModel| t == TokenModel::Equal,
        ),
        i + n <= tokens.len(),
{
    let ghost ts = tokens.deep_view();
    let mut j: usize = i;
    while j < tokens.len() && is_equal_token(&tokens[j])
        invariant
            i <= j <= tokens.len(),
            ts == tokens.deep_view(),
            ts.len() == tokens.len(),
            forall|k: int| i <= k < j ==> ts[k] == TokenModel::Equal,
        decreases tokens.len() - j,
    {
        j += 1;
    }
    proof {
        let s = ts.skip(i as int);
        assert forall|k: int| 0 <= k < j - i implies (|t: TokenModel| t == TokenModel::Equal)(
            s[k],
        ) by {
            assert(s[k] == ts[i + k]);
        }
        if j < tokens.len() {
            assert(s[j - i] == ts[j as int]);
        }
        lemma_token_run_is(s, |t: TokenModel| t == TokenModel::Equal, j - i);
    }
    j - i
}

/// The length of the run of non-`Equal` tokens starting at `i`.
fn non_equal_run_from(tokens: &Vec<Token>, i: usize) -> (n: usize)
    requires
        i <= tokens.len(),
    ensures
        n == token_run(
            tokens.deep_view().skip(i as int),
            |t: TokenModel| t != TokenModel::Equal,
        ),
        i + n <= tokens.len(),
{
    let ghost ts = tokens.deep_view();
    let mut j: usize = i;
    while j < tokens.len() && !is_equal_token(&tokens[j])
        invariant
            i <= j <= tokens.len(),
            ts == tokens.deep_view(),
            ts.len() == tokens.len(),
            forall|k: int| i <= k < j ==> ts[k] != TokenModel::Equal,
        decreases tokens.len() - j,
    {
        j += 1;
    }
    proof {
        let s = ts.skip(i as int);
        assert forall|k: int| 0 <= k < j - i implies (|t: TokenModel| t != TokenModel::Equal)(
            s[k],
        ) by {
            assert(s[k] == ts[i + k]);
        }
        if j < tokens.len() {
            assert(s[j - i] == ts[j as int]);
        }
        lemma_token_run_is(s, |t: TokenModel| t != TokenModel::Equal, j - i);
    }
    j - i
}

/// The concatenated canonical text of `tokens[from..to]`.
pub(crate) fn tokens_range_text(tokens: &Vec<Token>, from: usize, to: usize) -> (r: String)
    requires
        from <= to <= tokens.len(),
    ensures
        r@ == tokens_text(tokens.deep_view().subrange(from as int, to as int)),
{
    let ghost sub = tokens.deep_view().subrange(from as int, to as int);
    let mut r = String::new();
    let mut k: usize = 0;
    proof {
        assert(sub.skip(0) =~= sub);
    }
    while k < to - from
        invariant
            0 <= k <= to - from,
            from <= to <= tokens.len(),
            sub == tokens.deep_view().subrange(from as int, to as int),
            sub.len() == to - from,
            tokens_text(sub) == r@ + tokens_text(sub.skip(k as int)),
        decreases to - from - k,
    {
        proof {
            crate::lexer::lemma_tokens_text_step(sub, k as int);
            assert(sub[k as int] == tokens.deep_view()[from + k]);
        }
        let ghost before = r@;
        crate::lexer::push_token_text(&mut r, &tokens[from + k]);
        proof {
            assert(before + (crate::lexer::token_text(sub[k as int]) + tokens_text(
                sub.skip(k + 1),
            )) =~= r@ + tokens_text(sub.skip(k + 1)));
        }
        k += 1;
    }
    proof {
        assert(tokens_text(sub.skip(sub.len() as int)) =~= Seq::<char>::empty());
        assert(r@ + Seq::<char>::empty() =~= r@);
    }
    r
}

/// Parses the whole token sequence as one heading, following
/// [`spec_parse_heading`] exactly: the opening `=` run's length is threaded
/// through as the exact required closing count, and any violation is a
/// structured error, never a heading of another level.
pub fn parse_heading(tokens: &Vec<Token>) -> (r: Result<Heading, ParseError>)
    ensures
        match r {
            Ok(h) => spec_parse_heading(tokens.deep_view()) == Ok::<HeadingModel, ParseErrorModel>(
                h@,
            ),
            Err(e) => spec_parse_heading(tokens.deep_view()) == Err::<
                HeadingModel,
                ParseErrorModel,
            >(e@),
        },
{
    let ghost ts = tokens.deep_view();
    proof {
        assert(ts.skip(0) =~= ts);
    }
    let n = tokens.len();
    let l = equal_run_from(tokens, 0);
    if l == 0 {
        return Err(ParseError { at: 0, kind: ParseErrorKind::ExpectedHeading });
    }
    if l == n {
        return Err(ParseError { at: l, kind: ParseErrorKind::MissingHeadingText });
    }
    let m = non_equal_run_from(tokens, l);
    let j = l + m;
    if j == n {
        return Err(ParseError { at: j, kind: ParseErrorKind::UnterminatedHeading });
    }
    let c = equal_run_from(tokens, j);
    if c != l {
        return Err(
            ParseError {
                at: j,
                kind: ParseErrorKind::DelimiterCountMismatch { expected: l, found: c },
            },
        );
    }
    if j + c != n {
        return Err(ParseError { at: j + c, kind: ParseErrorKind::ExpectedEndOfInput });
    }
    let text_str = tokens_range_text(tokens, l, j);
    let chars = str_chars(text_str.as_str());
    let trimmed = trim_chars(&chars);
    Ok(Heading { level: l, text: trimmed })
}

/// An index marker token.
pub open spec fn is_index_token(t: TokenModel) -> bool {
    t is Index
}

/// The clause rule, on the whole token sequence: an `Index` token opens a
/// new clause whose body runs to the next `Index` token or the end of the
/// input; tokens before the first `Index` form the preamble. The rule is
/// total: every token sequence splits into statements this way. A clause's
/// `changes` flag is not derived here and defaults to `false`.
pub open spec fn spec_parse_stmts(ts: Seq<TokenModel>) -> Seq<StmtModel>
    decreases ts.len() via spec_parse_stmts_decreases
{
    if ts.len() == 0 {
        Seq::empty()
    } else {
        let body = token_run(ts.skip(1), |t: TokenModel| !is_index_token(t)) as int;
        let stmt = match ts[0] {
            TokenModel::Index { value, .. } => StmtModel::Clause {
                text: ts.subrange(1, 1 + body),
                index: value,
                changes: false,
            },
            _ => StmtModel::Preamble(ts.subrange(0, 1 + body)),
        };
        seq![stmt] + spec_parse_stmts(ts.skip(1 + body))
    }
}

#[via_fn]
proof fn spec_parse_stmts_decreases(ts: Seq<TokenModel>) {
    if ts.len() > 0 {
        lemma_token_run(ts.skip(1), |t: TokenModel| !is_index_token(t));
    }
}

/// Whether the token is an index marker.
fn is_index_tok(t: &Token) -> (b: bool)
    ensures
        b == is_index_token(t@),
{
    matches!(t, Token::Index { .. })
}

/// The length of the run of non-`Index` tokens starting at `i`.
fn non_index_run_from(tokens: &Vec<Token>, i: usize) -> (n: usize)
    requires
        i <= tokens.len(),
    ensures
        n == token_run(tokens.deep_view().skip(i as int), |t: TokenModel| !is_index_token(t)),
        i + n <= tokens.len(),
{
    let ghost ts = tokens.deep_view();
    let mut j: usize = i;
    while j < tokens.len() && !is_index_tok(&tokens[j])
        invariant
            i <= j <= tokens.len(),
            ts == tokens.deep_view(),
            ts.len() == tokens.len(),
            forall|k: int| i <= k < j ==> !is_index_token(#[trigger] ts[k]),
        decreases tokens.len() - j,
    {
        j += 1;
    }
    proof {
        let s = ts.skip(i as int);
        assert forall|k: int| 0 <= k < j - i implies (|t: TokenModel| !is_index_token(t))(
            s[k],
        ) by {
            assert(s[k] == ts[i + k]);
        }
        if j < tokens.len() {
            assert(s[j - i] == ts[j as int]);
        }
        lemma_token_run_is(s, |t: TokenModel| !is_index_token(t), j - i);
    }
    j - i
}

/// An exact copy of `tokens[from..to]`.
pub(crate) fn clone_tokens_range(tokens: &Vec<Token>, from: usize, to: usize) -> (r: Vec<Token>)
    requires
        from <= to <= tokens.len(),
    ensures
        r.deep_view() == tokens.deep_view().subrange(from as int, to as int),
{
    let mut r: Vec<Token> = Vec::new();
    let mut k: usize = 0;
    proof {
        assert(r.deep_view() =~= tokens.deep_view().subrange(from as int, from as int));
    }
    while k < to - from
        invariant
            0 <= k <= to - from,
            from <= to <= tokens.len(),
            r.len() == k,
            r.deep_view() == tokens.deep_view().subrange(from as int, from + k),
        decreases to - from - k,
    {
        let ghost prev = r.deep_view();
        let ghost prev_vec = r@;
        r.push(tokens[from + k].clone());
        proof {
            assert(r@ == prev_vec.push(tokens@[from + k]));
            assert forall|i: int| 0 <= i < k + 1 implies r.deep_view()[i] == tokens.deep_view()[
                from + i
            ] by {
                assert(r.deep_view()[i] == r@[i]@);
                assert(tokens.deep_view()[from + i] == tokens@[from + i]@);
                if i < k {
                    assert(r@[i] == prev_vec[i]);
                    assert(prev[i] == prev_vec[i]@);
                    assert(prev[i] == tokens.deep_view().subrange(from as int, from + k)[i]);
                } else {
                    assert(r@[i] == tokens@[from + k]);
                }
            }
            assert(r.deep_view() =~= tokens.deep_view().subrange(from as int, from + k + 1));
        }
        k += 1;
    }
    r
}

/// Splits the token sequence into statements, following
/// [`spec_parse_stmts`] exactly: tokens before the first index marker form
/// a preamble, and each index marker opens a clause that runs to the next
/// marker or the end of the input.
pub fn parse_stmts(tokens: &Vec<Token>) -> (r: Vec<Stmt>)
    ensures
        r.deep_view() == spec_parse_stmts(tokens.deep_view()),
{
    let ghost ts = tokens.deep_view();
    let mut out: Vec<Stmt> = Vec::new();
    let mut i: usize = 0;
    proof {
        assert(ts.skip(0) =~= ts);
        assert(out.deep_view() + spec_parse_stmts(ts) =~= spec_parse_stmts(ts));
    }
    while i < tokens.len()
        invariant
            0 <= i <= tokens.len(),
            ts == tokens.deep_view(),
            ts.len() == tokens.len(),
            spec_parse_stmts(ts) == out.deep_view() + spec_parse_stmts(ts.skip(i as int)),
        decreases tokens.len() - i,
    {
        let ghost u = ts.skip(i as int);
        let body = non_index_run_from(tokens, i + 1);
        proof {
            assert(ts.skip(i + 1) =~= u.skip(1));
        }
        let ghost pre = out.deep_view();
        let ghost spec_stmt = (match u[0] {
            TokenModel::Index { value, .. } => StmtModel::Clause {
                text: u.subrange(1, 1 + token_run(u.skip(1), |t: TokenModel| !is_index_token(t)) as int),
                index: value,
                changes: false,
            },
            _ => StmtModel::Preamble(
                u.subrange(0, 1 + token_run(u.skip(1), |t: TokenModel| !is_index_token(t)) as int),
            ),
        });
        let is_idx = is_index_tok(&tokens[i]);
        if is_idx {
            let idx: usize = match &tokens[i] {
                Token::Index { value, .. } => *value,
                _ => 0,
            };
            let text = clone_tokens_range(tokens, i + 1, i + 1 + body);
            proof {
                assert(u[0] == ts[i as int]);
                assert(text.deep_view() =~= u.subrange(
                    1,
                    1 + token_run(u.skip(1), |t: TokenModel| !is_index_token(t)) as int,
                ));
            }
            out.push(Stmt::Clause { text, index: idx, changes: false });
        } else {
            let text = clone_tokens_range(tokens, i, i + 1 + body);
            proof {
                assert(u[0] == ts[i as int]);
                assert(text.deep_view() =~= u.subrange(
                    0,
                    1 + token_run(u.skip(1), |t: TokenModel| !is_index_token(t)) as int,
                ));
            }
            out.push(Stmt::Preamble(text));
        }
        proof {
            assert(out.deep_view() =~= pre + seq![spec_stmt]);
            assert(u.skip(1 + token_run(u.skip(1), |t: TokenModel| !is_index_token(t)) as int)
                =~= ts.skip(
                i + 1 + body,
            ));
            assert(spec_parse_stmts(u) == seq![spec_stmt] + spec_parse_stmts(
                ts.skip(i + 1 + body),
            ));
            assert(pre + (seq![spec_stmt] + spec_parse_stmts(ts.skip(i + 1 + body)))
                =~= out.deep_view() + spec_parse_stmts(ts.skip(i + 1 + body)));
        }
        i = i + 1 + body;
    }
    proof {
        assert(ts.skip(i as int) =~= Seq::<TokenModel>::empty());
        assert(out.deep_view() + Seq::<StmtModel>::empty() =~= out.deep_view());
    }
    out
}

} // verus!
