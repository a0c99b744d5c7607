//! The table rule, built on the heading rule's template: recognize the
//! opening marker and style line, then walk the stream line by line —
//! header cells first, then body rows of piped cells closed by row
//! separators — until the closing marker. An unterminated table, or a
//! header cell after body content has begun, is a hard parse failure.

use vstd::prelude::*;

use crate::ast::{trim_chars, trim_seq, Cell, Table, TableModel};
use crate::lexer::{str_chars, tokens_text, Token, TokenModel};
use crate::parser::{token_run, lemma_token_run, lemma_token_run_is, ParseError, ParseErrorKind,
    ParseErrorKindModel, ParseErrorModel};

verus! {

/// A token that may stand inside a cell or the style text: anything that
/// does not structure the table itself.
pub open spec fn is_cell_token(t: TokenModel) -> bool {
    !(t is Newline || t is TableHeading || t is TableSeparator || t is TableEnd || t is TableStart
        || t is Pipe)
}

/// The walking state of the table rule, after the opening marker and the
/// style line: the header cells seen so far, the finished body rows, the
/// row being collected, and whether body content has begun (after which
/// no header cell may appear).
pub struct TableState {
    pub header: Seq<Seq<TokenModel>>,
    pub rows: Seq<Seq<Seq<TokenModel>>>,
    pub cur: Seq<Seq<TokenModel>>,
    pub body_started: bool,
}

/// One finished table from a final state and its style text.
pub open spec fn table_of(style: Seq<char>, st: TableState) -> TableModel {
    TableModel {
        style: style,
        header: if st.header.len() > 0 {
            Some(st.header)
        } else {
            None
        },
        cells: if st.cur.len() > 0 {
            st.rows.push(st.cur)
        } else {
            st.rows
        },
    }
}

/// The table rule's walk from position `i`: skips newlines, flushes the
/// current row at each row separator, collects a header cell after each
/// header marker (only before body content), collects a body cell after
/// each pipe, and finishes at the closing marker. Anything else, or
/// running out of input, is an error.
pub open spec fn spec_table_loop(
    ts: Seq<TokenModel>,
    i: int,
    style: Seq<char>,
    st: TableState,
) -> Result<TableModel, ParseErrorModel>
    decreases ts.len() - i via spec_table_loop_decreases
{
    if i < 0 || i > ts.len() {
        Err(ParseErrorModel { at: i, kind: ParseErrorKindModel::UnterminatedTable })
    } else if i == ts.len() {
        Err(ParseErrorModel { at: i, kind: ParseErrorKindModel::UnterminatedTable })
    } else {
        match ts[i] {
            TokenModel::TableEnd => Ok(table_of(style, st)),
            TokenModel::Newline(_) => spec_table_loop(ts, i + 1, style, st),
            TokenModel::TableSeparator => spec_table_loop(
                ts,
                i + 1,
                style,
                TableState {
                    rows: if st.cur.len() > 0 {
                        st.rows.push(st.cur)
                    } else {
                        st.rows
                    },
                    cur: Seq::empty(),
                    ..st
                },
            ),
            TokenModel::TableHeading => if st.body_started {
                Err(ParseErrorModel { at: i, kind: ParseErrorKindModel::MisplacedHeaderCell })
            } else {
                let c = token_run(ts.skip(i + 1), |t: TokenModel| is_cell_token(t)) as int;
                spec_table_loop(
                    ts,
                    i + 1 + c,
                    style,
                    TableState { header: st.header.push(ts.subrange(i + 1, i + 1 + c)), ..st },
                )
            },
            TokenModel::Pipe(_) => {
                let c = token_run(ts.skip(i + 1), |t: TokenModel| is_cell_token(t)) as int;
                spec_table_loop(
                    ts,
                    i + 1 + c,
                    style,
                    TableState {
                        cur: st.cur.push(ts.subrange(i + 1, i + 1 + c)),
                        body_started: true,
                        ..st
                    },
                )
            },
            _ => Err(ParseErrorModel { at: i, kind: ParseErrorKindModel::UnexpectedToken }),
        }
    }
}

#[via_fn]
proof fn spec_table_loop_decreases(ts: Seq<TokenModel>, i: int, style: Seq<char>, st: TableState) {
    if 0 <= i < ts.len() {
        lemma_token_run(ts.skip(i + 1), |t: TokenModel| is_cell_token(t));
    }
}

/// The table rule, on the whole token sequence: the opening marker, a
/// style line of cell tokens (whitespace-trimmed), then the walk of
/// [`spec_table_loop`] starting with everything empty.
pub open spec fn spec_parse_table(ts: Seq<TokenModel>) -> Result<TableModel, ParseErrorModel> {
    if ts.len() == 0 || ts[0] != TokenModel::TableStart {
        Err(ParseErrorModel { at: 0, kind: ParseErrorKindModel::ExpectedTableStart })
    } else {
        let p = token_run(ts.skip(1), |t: TokenModel| is_cell_token(t)) as int;
        let style = trim_seq(tokens_text(ts.subrange(1, 1 + p)));
        spec_table_loop(
            ts,
            1 + p,
            style,
            TableState {
                header: Seq::empty(),
                rows: Seq::empty(),
                cur: Seq::empty(),
                body_started: false,
            },
        )
    }
}

/// Whether the token may stand inside a cell, following
/// [`is_cell_token`].
fn cell_token(t: &Token) -> (b: bool)
    ensures
        b == is_cell_token(t@),
{
    !(matches!(t, Token::Newline(_)) || matches!(t, Token::TableHeading) || matches!(
        t,
        Token::TableSeparator,
    ) || matches!(t, Token::TableEnd) || matches!(t, Token::TableStart) || matches!(t, Token::Pipe(_)))
}

/// The length of the run of cell tokens starting at `i`.
fn cell_run_from(tokens: &Vec<Token>, i: usize) -> (n: usize)
    requires
        i <= tokens.len(),
    ensures
        n == token_run(tokens.deep_view().skip(i as int), |t: TokenModel| is_cell_token(t)),
        i + n <= tokens.len(),
{
    let ghost ts = tokens.deep_view();
    let mut j: usize = i;
    while j < tokens.len() && cell_token(&tokens[j])
        invariant
            i <= j <= tokens.len(),
            ts == tokens.deep_view(),
            ts.len() == tokens.len(),
            forall|k: int| i <= k < j ==> is_cell_token(#[trigger] ts[k]),
        decreases tokens.len() - j,
    {
        j += 1;
    }
    proof {
        let s = ts.skip(i as int);
        assert forall|k: int| 0 <= k < j - i implies (|t: TokenModel| is_cell_token(t))(s[k]) by {
            assert(s[k] == ts[i + k]);
        }
        if j < tokens.len() {
            assert(s[j - i] == ts[j as int]);
        }
        lemma_token_run_is(s, |t: TokenModel| is_cell_token(t), j - i);
    }
    j - i
}

/// The trimmed text of `tokens[from..to]`.
fn range_trimmed_text(tokens: &Vec<Token>, from: usize, to: usize) -> (r: String)
    requires
        from <= to <= tokens.len(),
    ensures
        r@ == trim_seq(tokens_text(tokens.deep_view().subrange(from as int, to as int))),
{
    let text = crate::parser::tokens_range_text(tokens, from, to);
    let chars = str_chars(text.as_str());
    trim_chars(&chars)
}

/// A cell from `tokens[from..to]`.
fn collect_cell(tokens: &Vec<Token>, from: usize, to: usize) -> (r: Cell)
    requires
        from <= to <= tokens.len(),
    ensures
        r@ == tokens.deep_view().subrange(from as int, to as int),
{
    let mut run: Vec<Token> = Vec::new();
    let mut k: usize = from;
    proof {
        assert(run.deep_view() =~= tokens.deep_view().subrange(from as int, from as int));
    }
    while k < to
        invariant
            from <= k <= to <= tokens.len(),
            run.len() == k - from,
            run.deep_view() == tokens.deep_view().subrange(from as int, k as int),
        decreases to - k,
    {
        let ghost prev = run.deep_view();
        let ghost prev_vec = run@;
        run.push(tokens[k].clone());
        proof {
            assert(run@ == prev_vec.push(tokens@[k as int]));
            assert forall|m: int| 0 <= m < k - from + 1 implies run.deep_view()[m]
                == tokens.deep_view().subrange(from as int, k + 1)[m] by {
                assert(run.deep_view()[m] == run@[m]@);
                if m < k - from {
                    assert(run@[m] == prev_vec[m]);
                    assert(prev[m] == prev_vec[m]@);
                } else {
                    assert(run@[m] == tokens@[k as int]);
                }
                assert(tokens.deep_view()[from + m] == tokens@[from + m]@);
            }
            assert(run.deep_view() =~= tokens.deep_view().subrange(from as int, k + 1));
        }
        k += 1;
    }
    Cell::new(run)
}

/// Parses the whole token sequence as one table, following
/// [`spec_parse_table`] exactly: the opening marker and style line, an
/// optional header section, body rows of piped cells closed by row
/// separators, and the closing marker; an unterminated table is an error,
/// and no partial table is ever returned.
#[verifier::loop_isolation(false)]
#[verifier::rlimit(80)]
pub fn parse_table(tokens: &Vec<Token>) -> (r: Result<Table, ParseError>)
    ensures
        match r {
            Ok(t) => spec_parse_table(tokens.deep_view()) == Ok::<TableModel, ParseErrorModel>(t@),
            Err(e) => spec_parse_table(tokens.deep_view()) == Err::<TableModel, ParseErrorModel>(
                e@,
            ),
        },
{
    let ghost ts = tokens.deep_view();
    let n = tokens.len();
    let opens = n > 0 && matches!(&tokens[0], Token::TableStart);
    if !opens {
        return Err(ParseError { at: 0, kind: ParseErrorKind::ExpectedTableStart });
    }
    let p = cell_run_from(tokens, 1);
    let style = range_trimmed_text(tokens, 1, 1 + p);
    let mut header: Vec<Cell> = Vec::new();
    let mut rows: Vec<Vec<Cell>> = Vec::new();
    let mut cur: Vec<Cell> = Vec::new();
    let mut body_started = false;
    let mut i: usize = 1 + p;
    let ghost style_s = trim_seq(tokens_text(ts.subrange(1, 1 + p as int)));
    proof {
        assert(style@ == style_s);
        assert(ts[0] == tokens@[0]@);
        assert(ts[0] == TokenModel::TableStart);
        assert(header.deep_view() =~= Seq::<Seq<TokenModel>>::empty());
        assert(rows.deep_view() =~= Seq::<Seq<Seq<TokenModel>>>::empty());
        assert(cur.deep_view() =~= Seq::<Seq<TokenModel>>::empty());
    }
    while i < n
        invariant
            0 <= i <= n,
            n == tokens.len(),
            ts == tokens.deep_view(),
            style@ == style_s,
            spec_parse_table(ts) == spec_table_loop(
                ts,
                i as int,
                style_s,
                TableState {
                    header: header.deep_view(),
                    rows: rows.deep_view(),
                    cur: cur.deep_view(),
                    body_started: body_started,
                },
            ),
        decreases n - i,
    {
        let ghost st = TableState {
            header: header.deep_view(),
            rows: rows.deep_view(),
            cur: cur.deep_view(),
            body_started: body_started,
        };
        match &tokens[i] {
            Token::TableEnd => {
                proof {
                    assert(ts[i as int] == TokenModel::TableEnd);
                }
                let hdr = if header.len() > 0 {
                    Some(header)
                } else {
                    None
                };
                let mut all_rows = rows;
                if cur.len() > 0 {
                    let ghost rows_prev = all_rows.deep_view();
                    all_rows.push(cur);
                    proof {
                        assert(all_rows.deep_view() =~= rows_prev.push(
                            all_rows@[all_rows.len() - 1].deep_view(),
                        ));
                    }
                }
                let t = Table { style, header: hdr, cells: all_rows };
                proof {
                    assert(t@.header == table_of(style_s, st).header);
                    assert(t@.cells == table_of(style_s, st).cells);
                    assert(t@ == table_of(style_s, st));
                }
                return Ok(t);
            },
            Token::Newline(_) => {
                proof {
                    assert(ts[i as int] is Newline);
                    assert(spec_table_loop(ts, i as int, style_s, st) == spec_table_loop(
                        ts,
                        i + 1,
                        style_s,
                        st,
                    ));
                }
                i += 1;
            },
            Token::TableSeparator => {
                proof {
                    assert(ts[i as int] == TokenModel::TableSeparator);
                }
                if cur.len() > 0 {
                    let ghost rows_prev = rows.deep_view();
                    let full = cur;
                    cur = Vec::new();
                    rows.push(full);
                    proof {
                        assert(rows.deep_view() =~= rows_prev.push(
                            rows@[rows.len() - 1].deep_view(),
                        ));
                        assert(cur.deep_view() =~= Seq::<Seq<TokenModel>>::empty());
                    }
                } else {
                    proof {
                        assert(cur.deep_view() =~= Seq::<Seq<TokenModel>>::empty());
                    }
                }
                proof {
                    let st2 = TableState {
                        header: header.deep_view(),
                        rows: rows.deep_view(),
                        cur: cur.deep_view(),
                        body_started: body_started,
                    };
                    assert(st2 == (TableState {
                        rows: if st.cur.len() > 0 {
                            st.rows.push(st.cur)
                        } else {
                            st.rows
                        },
                        cur: Seq::<Seq<TokenModel>>::empty(),
                        ..st
                    }));
                    assert(spec_table_loop(ts, i as int, style_s, st) == spec_table_loop(
                        ts,
                        i + 1,
                        style_s,
                        st2,
                    ));
                }
                i += 1;
            },
            Token::TableHeading => {
                proof {
                    assert(ts[i as int] == TokenModel::TableHeading);
                }
                if body_started {
                    return Err(ParseError { at: i, kind: ParseErrorKind::MisplacedHeaderCell });
                }
                let c = cell_run_from(tokens, i + 1);
                let cell = collect_cell(tokens, i + 1, i + 1 + c);
                let ghost header_prev = header.deep_view();
                header.push(cell);
                proof {
                    assert(ts.skip(i + 1) == ts.skip(i as int + 1));
                    assert(header.deep_view() =~= header_prev.push(
                        header@[header.len() - 1]@,
                    ));
                    let cspec = token_run(
                        ts.skip(i as int + 1),
                        |tm: TokenModel| is_cell_token(tm),
                    ) as int;
                    assert(c == cspec);
                    let st2 = TableState {
                        header: header.deep_view(),
                        rows: rows.deep_view(),
                        cur: cur.deep_view(),
                        body_started: body_started,
                    };
                    assert(st2.header == st.header.push(ts.subrange(i + 1, i + 1 + cspec)));
                    assert(st2 == (TableState {
                        header: st.header.push(ts.subrange(i + 1, i + 1 + cspec)),
                        ..st
                    }));
                    assert(spec_table_loop(ts, i as int, style_s, st) == spec_table_loop(
                        ts,
                        i + 1 + cspec,
                        style_s,
                        st2,
                    ));
                }
                i = i + 1 + c;
            },
            Token::Pipe(_) => {
                proof {
                    assert(ts[i as int] is Pipe);
                }
                let c = cell_run_from(tokens, i + 1);
                let cell = collect_cell(tokens, i + 1, i + 1 + c);
                let ghost cur_prev = cur.deep_view();
                cur.push(cell);
                body_started = true;
                proof {
                    assert(ts.skip(i + 1) == ts.skip(i as int + 1));
                    assert(cur.deep_view() =~= cur_prev.push(cur@[cur.len() - 1]@));
                    let cspec = token_run(
                        ts.skip(i as int + 1),
                        |tm: TokenModel| is_cell_token(tm),
                    ) as int;
                    assert(c == cspec);
                    let st2 = TableState {
                        header: header.deep_view(),
                        rows: rows.deep_view(),
                        cur: cur.deep_view(),
                        body_started: body_started,
                    };
                    assert(st2.cur == st.cur.push(ts.subrange(i + 1, i + 1 + cspec)));
                    assert(st2 == (TableState {
                        cur: st.cur.push(ts.subrange(i + 1, i + 1 + cspec)),
                        body_started: true,
                        ..st
                    }));
                    assert(spec_table_loop(ts, i as int, style_s, st) == spec_table_loop(
                        ts,
                        i + 1 + cspec,
                        style_s,
                        st2,
                    ));
                }
                i = i + 1 + c;
            },
            _ => {
                proof {
                    assert(!(ts[i as int] is TableEnd || ts[i as int] is Newline
                        || ts[i as int] is TableSeparator || ts[i as int] is TableHeading
                        || ts[i as int] is Pipe));
                }
                return Err(ParseError { at: i, kind: ParseErrorKind::UnexpectedToken });
            },
        }
    }
    Err(ParseError { at: n, kind: ParseErrorKind::UnterminatedTable })
}

} // verus!
