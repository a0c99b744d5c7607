//! Lexer for the constrained wikitext dialect.
//!
//! A source buffer is scanned left to right, without backtracking, into a
//! sequence of typed tokens. Where several lexemes share a prefix (`|`, `|-`,
//! `|}`, `\n`, `\n! `, `\n§123`, ...) the scanner prefers the longest match at
//! the current position and resolves ties by specificity: fixed punctuation
//! beats `Pipe`, and `Pipe` beats `Word`. Any byte sequence that matches no
//! lexeme fails lexing with the offset of the offending character.

use vstd::prelude::*;

verus! {

/// A lexical token. Each variant carries exactly the data needed to re-emit
/// its exact lexeme (see [`token_text`]); the one deliberately lossy lexeme
/// is `Tabspace`, whose four-space form re-emits as a tab.
#[derive(Debug, PartialEq)]
pub enum Token {
    /// `=`
    Equal,
    /// `\n` or `\r`; carries which of the two it was
    Newline(char),
    /// a newline, an optional `§`, then digits; carries the numeric value
    /// together with the newline character, the presence of the `§` sign
    /// and the captured digits, so the exact lexeme can be re-emitted
    Index { value: usize, newline: char, section_sign: bool, digits: String },
    /// a single space
    Whitespace,
    /// a tab, or four consecutive spaces; both re-emitted as a tab
    Tabspace,
    /// `<`
    LAngle,
    /// `>`
    RAngle,
    /// `</`
    ClassTerminator,
    /// a maximal run of alphanumerics and `| \ / - + * % ! _ .`
    Word(String),
    /// `'''`
    Bold,
    /// `''`
    Italic,
    /// `[[`
    InternalLink,
    /// `]]`
    InternalLinkEnd,
    /// `[`
    ExternalLink,
    /// `]`
    ExternalLinkEnd,
    /// `----`
    Separator,
    /// `{|`
    TableStart,
    /// `|}`
    TableEnd,
    /// `\n! `
    TableHeading,
    /// `|` followed by zero or more spaces; carries how many
    Pipe(usize),
    /// `|-`
    TableSeparator,
}

/// The mathematical model of a [`Token`]: the same tag, with text as a
/// character sequence and the clause index as an unbounded natural.
pub enum TokenModel {
    Equal,
    Newline(char),
    Index { value: nat, newline: char, section_sign: bool, digits: Seq<char> },
    Whitespace,
    Tabspace,
    LAngle,
    RAngle,
    ClassTerminator,
    Word(Seq<char>),
    Bold,
    Italic,
    InternalLink,
    InternalLinkEnd,
    ExternalLink,
    ExternalLinkEnd,
    Separator,
    TableStart,
    TableEnd,
    TableHeading,
    Pipe(nat),
    TableSeparator,
}

impl View for Token {
    type V = TokenModel;

    open spec fn view(&self) -> TokenModel {
        match self {
            Token::Equal => TokenModel::Equal,
            Token::Newline(c) => TokenModel::Newline(*c),
            Token::Index { value, newline, section_sign, digits } => TokenModel::Index {
                value: *value as nat,
                newline: *newline,
                section_sign: *section_sign,
                digits: digits@,
            },
            Token::Whitespace => TokenModel::Whitespace,
            Token::Tabspace => TokenModel::Tabspace,
            Token::LAngle => TokenModel::LAngle,
            Token::RAngle => TokenModel::RAngle,
            Token::ClassTerminator => TokenModel::ClassTerminator,
            Token::Word(w) => TokenModel::Word(w@),
            Token::Bold => TokenModel::Bold,
            Token::Italic => TokenModel::Italic,
            Token::InternalLink => TokenModel::InternalLink,
            Token::InternalLinkEnd => TokenModel::InternalLinkEnd,
            Token::ExternalLink => TokenModel::ExternalLink,
            Token::ExternalLinkEnd => TokenModel::ExternalLinkEnd,
            Token::Separator => TokenModel::Separator,
            Token::TableStart => TokenModel::TableStart,
            Token::TableEnd => TokenModel::TableEnd,
            Token::TableHeading => TokenModel::TableHeading,
            Token::Pipe(k) => TokenModel::Pipe(*k as nat),
            Token::TableSeparator => TokenModel::TableSeparator,
        }
    }
}

impl DeepView for Token {
    type V = TokenModel;

    open spec fn deep_view(&self) -> TokenModel {
        self.view()
    }
}

impl Clone for Token {
    /// An exact copy of the token.
    fn clone(&self) -> (r: Self)
        ensures
            r == self,
    {
        match self {
            Token::Equal => Token::Equal,
            Token::Newline(c) => Token::Newline(*c),
            Token::Index { value, newline, section_sign, digits } => Token::Index {
                value: *value,
                newline: *newline,
                section_sign: *section_sign,
                digits: digits.clone(),
            },
            Token::Whitespace => Token::Whitespace,
            Token::Tabspace => Token::Tabspace,
            Token::LAngle => Token::LAngle,
            Token::RAngle => Token::RAngle,
            Token::ClassTerminator => Token::ClassTerminator,
            Token::Word(w) => Token::Word(w.clone()),
            Token::Bold => Token::Bold,
            Token::Italic => Token::Italic,
            Token::InternalLink => Token::InternalLink,
            Token::InternalLinkEnd => Token::InternalLinkEnd,
            Token::ExternalLink => Token::ExternalLink,
            Token::ExternalLinkEnd => Token::ExternalLinkEnd,
            Token::Separator => Token::Separator,
            Token::TableStart => Token::TableStart,
            Token::TableEnd => Token::TableEnd,
            Token::TableHeading => Token::TableHeading,
            Token::Pipe(k) => Token::Pipe(*k),
            Token::TableSeparator => Token::TableSeparator,
        }
    }
}

/// The decimal digit character for a value below ten.
pub open spec fn digit_char(d: nat) -> char {
    if d == 0 {
        '0'
    } else if d == 1 {
        '1'
    } else if d == 2 {
        '2'
    } else if d == 3 {
        '3'
    } else if d == 4 {
        '4'
    } else if d == 5 {
        '5'
    } else if d == 6 {
        '6'
    } else if d == 7 {
        '7'
    } else if d == 8 {
        '8'
    } else {
        '9'
    }
}

/// The decimal digit string of `n`, most significant digit first,
/// without leading zeros (`0` itself is the single character `0`).
pub open spec fn spec_digits(n: nat) -> Seq<char>
    decreases n,
{
    if n < 10 {
        seq![digit_char(n)]
    } else {
        spec_digits(n / 10).push(digit_char(n % 10))
    }
}

/// A repeated character: `n` copies of `c`.
pub open spec fn char_repeat(c: char, n: nat) -> Seq<char> {
    Seq::new(n, |i: int| c)
}

/// The exact text a token re-emits: its lexeme, character for character.
/// The one deliberately lossy re-emission is `Tabspace`, which stands for
/// a tab or for four consecutive spaces and always re-emits a tab.
pub open spec fn token_text(t: TokenModel) -> Seq<char> {
    match t {
        TokenModel::Equal => seq!['='],
        TokenModel::Newline(c) => seq![c],
        TokenModel::Index { value, newline, section_sign, digits } => seq![newline] + (
        if section_sign {
            seq!['\u{a7}']
        } else {
            Seq::<char>::empty()
        }) + digits,
        TokenModel::Whitespace => seq![' '],
        TokenModel::Tabspace => seq!['\t'],
        TokenModel::LAngle => seq!['<'],
        TokenModel::RAngle => seq!['>'],
        TokenModel::ClassTerminator => seq!['<', '/'],
        TokenModel::Word(w) => w,
        TokenModel::Bold => seq!['\'', '\'', '\''],
        TokenModel::Italic => seq!['\'', '\''],
        TokenModel::InternalLink => seq!['[', '['],
        TokenModel::InternalLinkEnd => seq![']', ']'],
        TokenModel::ExternalLink => seq!['['],
        TokenModel::ExternalLinkEnd => seq![']'],
        TokenModel::Separator => seq!['-', '-', '-', '-'],
        TokenModel::TableStart => seq!['{', '|'],
        TokenModel::TableEnd => seq!['|', '}'],
        TokenModel::TableHeading => seq!['\n', '!', ' '],
        TokenModel::Pipe(k) => seq!['|'] + char_repeat(' ', k),
        TokenModel::TableSeparator => seq!['|', '-'],
    }
}

/// The concatenated canonical text of a token sequence.
pub open spec fn tokens_text(ts: Seq<TokenModel>) -> Seq<char>
    decreases ts.len(),
{
    if ts.len() == 0 {
        Seq::empty()
    } else {
        token_text(ts[0]) + tokens_text(ts.skip(1))
    }
}

/// Decides [`is_word_char`].
fn word_char(c: char) -> (b: bool)
    ensures
        b == is_word_char(c),
{
    let u = c as u32;
    (48 <= u && u <= 57) || (65 <= u && u <= 90) || (97 <= u && u <= 122) || c == '|' || c == '\\'
        || c == '/' || c == '-' || c == '+' || c == '*' || c == '%' || c == '!' || c == '_' || c
        == '.'
}

/// Decides [`is_digit_char`].
fn digit_char_at(c: char) -> (b: bool)
    ensures
        b == is_digit_char(c),
{
    let u = c as u32;
    48 <= u && u <= 57
}

/// The characters of `s`, in order, as a vector.
pub(crate) fn str_chars(s: &str) -> (v: Vec<char>)
    ensures
        v@ == s@,
{
    let n = s.unicode_len();
    let mut v: Vec<char> = Vec::new();
    let mut i: usize = 0;
    while i < n
        invariant
            0 <= i <= n,
            n == s@.len(),
            v@ == s@.take(i as int),
        decreases n - i,
    {
        let c = s.get_char(i);
        v.push(c);
        proof {
            assert(v@ =~= s@.take(i + 1));
        }
        i += 1;
    }
    proof {
        assert(v@ =~= s@);
    }
    v
}

/// The length of the run of word characters starting at `i`.
fn word_run(v: &Vec<char>, i: usize) -> (n: usize)
    requires
        i <= v.len(),
    ensures
        n == run_len(v@.skip(i as int), |ch: char| is_word_char(ch)),
        i + n <= v.len(),
{
    let mut j: usize = i;
    while j < v.len() && word_char(v[j])
        invariant
            i <= j <= v.len(),
            forall|k: int| i <= k < j ==> is_word_char(v@[k]),
        decreases v.len() - j,
    {
        j += 1;
    }
    proof {
        let s = v@.skip(i as int);
        assert forall|k: int| 0 <= k < j - i implies (|ch: char| is_word_char(ch))(s[k]) by {
            assert(s[k] == v@[i + k]);
        }
        lemma_run_len_is(s, |ch: char| is_word_char(ch), j - i);
    }
    j - i
}

/// The length of the run of spaces starting at `i`.
fn space_run(v: &Vec<char>, i: usize) -> (n: usize)
    requires
        i <= v.len(),
    ensures
        n == run_len(v@.skip(i as int), |ch: char| ch == ' '),
        i + n <= v.len(),
{
    let mut j: usize = i;
    while j < v.len() && v[j] == ' '
        invariant
            i <= j <= v.len(),
            forall|k: int| i <= k < j ==> v@[k] == ' ',
        decreases v.len() - j,
    {
        j += 1;
    }
    proof {
        let s = v@.skip(i as int);
        assert forall|k: int| 0 <= k < j - i implies (|ch: char| ch == ' ')(s[k]) by {
            assert(s[k] == v@[i + k]);
        }
        lemma_run_len_is(s, |ch: char| ch == ' ', j - i);
    }
    j - i
}

/// The length of the run of digits starting at `i`.
fn digit_run(v: &Vec<char>, i: usize) -> (n: usize)
    requires
        i <= v.len(),
    ensures
        n == run_len(v@.skip(i as int), |ch: char| is_digit_char(ch)),
        i + n <= v.len(),
{
    let mut j: usize = i;
    while j < v.len() && digit_char_at(v[j])
        invariant
            i <= j <= v.len(),
            forall|k: int| i <= k < j ==> is_digit_char(v@[k]),
        decreases v.len() - j,
    {
        j += 1;
    }
    proof {
        let s = v@.skip(i as int);
        assert forall|k: int| 0 <= k < j - i implies (|ch: char| is_digit_char(ch))(s[k]) by {
            assert(s[k] == v@[i + k]);
        }
        lemma_run_len_is(s, |ch: char| is_digit_char(ch), j - i);
    }
    j - i
}

/// The value of the `d` digits starting at `j`, or `None` where it exceeds
/// the machine's word size.
fn digits_to_value(v: &Vec<char>, j: usize, d: usize) -> (r: Option<usize>)
    requires
        j + d <= v.len(),
        forall|k: int| j <= k < j + d ==> is_digit_char(v@[k]),
    ensures
        match r {
            Some(val) => val == digits_value(v@.subrange(j as int, j + d)),
            None => digits_value(v@.subrange(j as int, j + d)) > usize::MAX,
        },
{
    let mut val: usize = 0;
    let mut k: usize = 0;
    while k < d
        invariant
            0 <= k <= d,
            j + d <= v.len(),
            forall|m: int| j <= m < j + d ==> is_digit_char(v@[m]),
            val == digits_value(v@.subrange(j as int, j + k)),
        decreases d - k,
    {
        let c = v[j + k];
        let dig: usize = (c as u32 - 48) as usize;
        assert(dig == digit_val(v@[j + k]) && dig < 10);
        let ghost pre = v@.subrange(j as int, j + k);
        let ghost cur = v@.subrange(j as int, j + k + 1);
        proof {
            assert(cur.take(cur.len() - 1) =~= pre);
            assert(cur[cur.len() - 1] == v@[j + k]);
        }
        match val.checked_mul(10) {
            Some(m) => {
                match m.checked_add(dig) {
                    Some(next) => {
                        val = next;
                    },
                    None => {
                        proof {
                            lemma_digits_overflow(v@, j as int, k + 1, d as int);
                        }
                        return None;
                    },
                }
            },
            None => {
                proof {
                    lemma_digits_overflow(v@, j as int, k + 1, d as int);
                }
                return None;
            },
        }
        k += 1;
    }
    assert(v@.subrange(j as int, j + k) =~= v@.subrange(j as int, j + d));
    Some(val)
}

/// Once a digit prefix exceeds the machine's word size, the full digit
/// string does too.
proof fn lemma_digits_overflow(s: Seq<char>, j: int, k: int, d: int)
    requires
        0 <= j,
        0 < k <= d,
        j + d <= s.len(),
        digits_value(s.subrange(j, j + k)) > usize::MAX,
    ensures
        digits_value(s.subrange(j, j + d)) > usize::MAX,
    decreases d - k,
{
    if k < d {
        let longer = s.subrange(j, j + k + 1);
        assert(longer.take(longer.len() - 1) =~= s.subrange(j, j + k));
        lemma_digits_value_grows(longer);
        lemma_digits_overflow(s, j, k + 1, d);
    }
}

/// The `w` characters starting at `i`, as a string.
fn chars_range_string(v: &Vec<char>, i: usize, w: usize) -> (s: String)
    requires
        i + w <= v.len(),
    ensures
        s@ == v@.subrange(i as int, i + w),
{
    let mut s = String::new();
    let mut k: usize = 0;
    while k < w
        invariant
            0 <= k <= w,
            i + w <= v.len(),
            s@ == v@.subrange(i as int, i + k),
        decreases w - k,
    {
        push_char(&mut s, v[i + k]);
        proof {
            assert(s@ =~= v@.subrange(i as int, i + k + 1));
        }
        k += 1;
    }
    s
}

/// The word token starting at `i`, spanning `w` characters.
fn make_word(v: &Vec<char>, i: usize, w: usize) -> (t: Token)
    requires
        i + w <= v.len(),
    ensures
        t@ == TokenModel::Word(v@.subrange(i as int, i + w)),
{
    Token::Word(chars_range_string(v, i, w))
}

/// The token matched at position `i`, with the length of its span,
/// following [`next_token`].
fn scan_token(v: &Vec<char>, i: usize) -> (r: Option<(Token, usize)>)
    requires
        i < v.len(),
    ensures
        match r {
            Some(p) => next_token(v@.skip(i as int)) == Some((p.0@, p.1 as int)) && 1 <= p.1 && i
                + p.1 <= v.len(),
            None => next_token(v@.skip(i as int)) is None,
        },
{
    let ghost s = v@.skip(i as int);
    let n = v.len();
    assert(s.len() == n - i);
    assert(forall|k: int| 0 <= k < s.len() ==> s[k] == v@[i + k]);
    let c = v[i];
    assert(c == s[0]);
    if c == '=' {
        Some((Token::Equal, 1))
    } else if c == '\n' || c == '\r' {
        let marked = n - i > 1 && v[i + 1] == '\u{a7}';
        let j: usize = if marked {
            2
        } else {
            1
        };
        assert(v@.skip(i + j) =~= s.skip(j as int));
        let d = digit_run(v, i + j);
        if d >= 1 {
            proof {
                lemma_run_len(v@.skip(i + j), |ch: char| is_digit_char(ch));
                assert(v@.subrange(i + j, i + j + d) =~= s.subrange(j as int, j + d));
                assert forall|k: int| i + j <= k < i + j + d implies is_digit_char(v@[k]) by {
                    assert(v@.skip(i + j)[k - i - j] == v@[k]);
                }
            }
            match digits_to_value(v, i + j, d) {
                Some(val) => {
                    let digits = chars_range_string(v, i + j, d);
                    proof {
                        assert(digits@ == s.subrange(j as int, j + d));
                    }
                    Some(
                        (
                            Token::Index {
                                value: val,
                                newline: c,
                                section_sign: marked,
                                digits,
                            },
                            j + d,
                        ),
                    )
                },
                None => None,
            }
        } else if c == '\n' && n - i > 2 && v[i + 1] == '!' && v[i + 2] == ' ' {
            Some((Token::TableHeading, 3))
        } else {
            Some((Token::Newline(c), 1))
        }
    } else if c == ' ' {
        if n - i > 3 && v[i + 1] == ' ' && v[i + 2] == ' ' && v[i + 3] == ' ' {
            Some((Token::Tabspace, 4))
        } else {
            Some((Token::Whitespace, 1))
        }
    } else if c == '\t' {
        Some((Token::Tabspace, 1))
    } else if c == '<' {
        if n - i > 1 && v[i + 1] == '/' {
            Some((Token::ClassTerminator, 2))
        } else {
            Some((Token::LAngle, 1))
        }
    } else if c == '>' {
        Some((Token::RAngle, 1))
    } else if c == '\'' {
        if n - i > 2 && v[i + 1] == '\'' && v[i + 2] == '\'' {
            Some((Token::Bold, 3))
        } else if n - i > 1 && v[i + 1] == '\'' {
            Some((Token::Italic, 2))
        } else {
            None
        }
    } else if c == '[' {
        if n - i > 1 && v[i + 1] == '[' {
            Some((Token::InternalLink, 2))
        } else {
            Some((Token::ExternalLink, 1))
        }
    } else if c == ']' {
        if n - i > 1 && v[i + 1] == ']' {
            Some((Token::InternalLinkEnd, 2))
        } else {
            Some((Token::ExternalLinkEnd, 1))
        }
    } else if c == '{' {
        if n - i > 1 && v[i + 1] == '|' {
            Some((Token::TableStart, 2))
        } else {
            None
        }
    } else if c == '|' {
        proof {
            assert(v@.skip(i as int) =~= s);
        }
        let w = word_run(v, i);
        proof {
            lemma_run_len(s, |ch: char| is_word_char(ch));
            assert(w >= 1);
        }
        if n - i > 1 && v[i + 1] == '}' {
            Some((Token::TableEnd, 2))
        } else if n - i > 1 && v[i + 1] == '-' {
            if w == 2 {
                Some((Token::TableSeparator, 2))
            } else {
                proof {
                    assert(v@.subrange(i as int, i + w) =~= s.subrange(0, w as int));
                }
                Some((make_word(v, i, w), w))
            }
        } else if n - i > 1 && v[i + 1] == ' ' {
            assert(v@.skip(i + 1) =~= s.skip(1));
            let sp = space_run(v, i + 1);
            Some((Token::Pipe(sp), 1 + sp))
        } else if n - i > 1 && word_char(v[i + 1]) {
            proof {
                assert(v@.subrange(i as int, i + w) =~= s.subrange(0, w as int));
            }
            Some((make_word(v, i, w), w))
        } else {
            Some((Token::Pipe(0), 1))
        }
    } else if c == '-' {
        proof {
            assert(v@.skip(i as int) =~= s);
        }
        let w = word_run(v, i);
        proof {
            lemma_run_len(s, |ch: char| is_word_char(ch));
            assert(w >= 1);
        }
        if w == 4 && n - i > 3 && v[i + 1] == '-' && v[i + 2] == '-' && v[i + 3] == '-' {
            Some((Token::Separator, 4))
        } else {
            proof {
                assert(v@.subrange(i as int, i + w) =~= s.subrange(0, w as int));
            }
            Some((make_word(v, i, w), w))
        }
    } else if word_char(c) {
        proof {
            assert(v@.skip(i as int) =~= s);
        }
        let w = word_run(v, i);
        proof {
            lemma_run_len(s, |ch: char| is_word_char(ch));
            assert(w >= 1);
            assert(v@.subrange(i as int, i + w) =~= s.subrange(0, w as int));
        }
        Some((make_word(v, i, w), w))
    } else {
        None
    }
}

/// Scans `src` into its token sequence, or reports the offset at which no
/// lexeme matches. The result follows [`spec_lex`] exactly.
pub fn lex(src: &str) -> (r: Result<Vec<Token>, LexError>)
    ensures
        match r {
            Ok(toks) => spec_lex(src@) == Ok::<Seq<TokenModel>, int>(toks.deep_view()),
            Err(e) => spec_lex(src@) == Err::<Seq<TokenModel>, int>(e.offset as int),
        },
{
    let v = str_chars(src);
    let mut toks: Vec<Token> = Vec::new();
    let mut i: usize = 0;
    proof {
        assert(v@.skip(0) =~= src@);
    }
    while i < v.len()
        invariant
            0 <= i <= v.len(),
            v@ == src@,
            spec_lex(src@) == (match spec_lex(src@.skip(i as int)) {
                Ok(rest) => Ok::<Seq<TokenModel>, int>(toks.deep_view() + rest),
                Err(e) => Err::<Seq<TokenModel>, int>(i + e),
            }),
        decreases v.len() - i,
    {
        let ghost tail = src@.skip(i as int);
        match scan_token(&v, i) {
            None => {
                proof {
                    assert(spec_lex(tail) == Err::<Seq<TokenModel>, int>(0));
                }
                return Err(LexError { offset: i });
            },
            Some((t, step)) => {
                let ghost pre = toks.deep_view();
                toks.push(t);
                proof {
                    assert(toks.deep_view() =~= pre + seq![toks@[toks.len() - 1]@]);
                    assert(tail.skip(step as int) =~= src@.skip(i + step));
                    match spec_lex(src@.skip(i + step)) {
                        Ok(rest) => {
                            assert(spec_lex(tail) == Ok::<Seq<TokenModel>, int>(
                                seq![t@] + rest,
                            ));
                            assert(pre + (seq![t@] + rest) =~= toks.deep_view() + rest);
                        },
                        Err(e) => {
                            assert(spec_lex(tail) == Err::<Seq<TokenModel>, int>(step + e));
                        },
                    }
                }
                i += step;
            },
        }
    }
    proof {
        assert(src@.skip(i as int) =~= Seq::<char>::empty());
        assert(toks.deep_view() + Seq::<TokenModel>::empty() =~= toks.deep_view());
    }
    Ok(toks)
}

/// An ASCII letter or digit: the characters a plain word is made of.
pub open spec fn is_alnum_char(c: char) -> bool {
    (48 <= c as u32 <= 57) || (65 <= c as u32 <= 90) || (97 <= c as u32 <= 122)
}

/// Lexing after a run of `=` delimiters: each delimiter is one `Equal`
/// token, whatever follows.
pub proof fn lemma_lex_equal_prefix(s: Seq<char>, l: nat)
    ensures
        spec_lex(char_repeat('=', l) + s) == (match spec_lex(s) {
            Ok(ts) => Ok::<Seq<TokenModel>, int>(
                Seq::new(l, |i: int| TokenModel::Equal) + ts,
            ),
            Err(e) => Err::<Seq<TokenModel>, int>(l + e),
        }),
    decreases l,
{
    let rep = char_repeat('=', l);
    if l == 0 {
        assert(rep + s =~= s);
        match spec_lex(s) {
            Ok(ts) => {
                assert(Seq::new(0, |i: int| TokenModel::Equal) + ts =~= ts);
            },
            Err(e) => {},
        }
    } else {
        let u = rep + s;
        assert(u[0] == '=');
        assert(u.len() >= 1);
        assert(next_token(u) == Some((TokenModel::Equal, 1int)));
        assert(u.skip(1) =~= char_repeat('=', (l - 1) as nat) + s);
        lemma_lex_equal_prefix(s, (l - 1) as nat);
        match spec_lex(s) {
            Ok(ts) => {
                assert(spec_lex(u.skip(1)) == Ok::<Seq<TokenModel>, int>(
                    Seq::new((l - 1) as nat, |i: int| TokenModel::Equal) + ts,
                ));
                assert(seq![TokenModel::Equal] + (Seq::new(
                    (l - 1) as nat,
                    |i: int| TokenModel::Equal,
                ) + ts) =~= Seq::new(l, |i: int| TokenModel::Equal) + ts);
            },
            Err(e) => {
                assert(spec_lex(u.skip(1)) == Err::<Seq<TokenModel>, int>(l - 1 + e));
            },
        }
    }
}

/// A plain heading title: nonempty, made of ASCII alphanumerics and
/// single spaces, with no space at either end. This is the shape parsing
/// gives every heading whose raw text held plain words.
pub open spec fn plain_title(w: Seq<char>) -> bool {
    &&& w.len() >= 1
    &&& forall|i: int| 0 <= i < w.len() ==> is_alnum_char(#[trigger] w[i]) || w[i] == ' '
    &&& w[0] != ' '
    &&& w[w.len() - 1] != ' '
    &&& forall|i: int| 0 <= i < w.len() - 1 ==> !(#[trigger] w[i] == ' ' && w[i + 1] == ' ')
}

/// The token run a plain title lexes to: each alphanumeric run one
/// `Word`, each separating space one `Whitespace`.
pub open spec fn title_tokens(w: Seq<char>) -> Seq<TokenModel>
    decreases w.len() via title_tokens_decreases
{
    if w.len() == 0 {
        Seq::empty()
    } else if w[0] == ' ' {
        seq![TokenModel::Whitespace] + title_tokens(w.skip(1))
    } else {
        let k = run_len(w, |c: char| is_alnum_char(c)) as int;
        if k >= 1 {
            seq![TokenModel::Word(w.take(k))] + title_tokens(w.skip(k))
        } else {
            seq![TokenModel::Word(w)]
        }
    }
}

#[via_fn]
proof fn title_tokens_decreases(w: Seq<char>) {
    if w.len() > 0 && w[0] != ' ' {
        lemma_run_len(w, |c: char| is_alnum_char(c));
    }
}

/// A plain title's tokens re-emit the title, hold no `Equal` delimiter,
/// and are nonempty for a nonempty title.
pub proof fn lemma_title_tokens(w: Seq<char>)
    requires
        forall|i: int| 0 <= i < w.len() ==> is_alnum_char(#[trigger] w[i]) || w[i] == ' ',
    ensures
        tokens_text(title_tokens(w)) == w,
        forall|i: int|
            0 <= i < title_tokens(w).len() ==> #[trigger] title_tokens(w)[i]
                != TokenModel::Equal,
        w.len() >= 1 ==> title_tokens(w).len() >= 1,
    decreases w.len(),
{
    let ts = title_tokens(w);
    if w.len() == 0 {
        assert(tokens_text(ts) =~= w);
    } else if w[0] == ' ' {
        assert forall|i: int| 0 <= i < w.skip(1).len() implies is_alnum_char(
            #[trigger] w.skip(1)[i],
        ) || w.skip(1)[i] == ' ' by {
            assert(w.skip(1)[i] == w[i + 1]);
        }
        lemma_title_tokens(w.skip(1));
        assert(ts[0] == TokenModel::Whitespace);
        assert(ts.skip(1) =~= title_tokens(w.skip(1)));
        assert(tokens_text(ts) == token_text(ts[0]) + tokens_text(ts.skip(1)));
        assert(tokens_text(ts) =~= w);
        assert forall|i: int| 0 <= i < ts.len() implies #[trigger] ts[i] != TokenModel::Equal by {
            if i > 0 {
                assert(ts[i] == title_tokens(w.skip(1))[i - 1]);
            }
        }
    } else {
        lemma_run_len(w, |c: char| is_alnum_char(c));
        let k = run_len(w, |c: char| is_alnum_char(c)) as int;
        assert(is_alnum_char(w[0]));
        assert(k >= 1);
        assert forall|i: int| 0 <= i < w.skip(k).len() implies is_alnum_char(
            #[trigger] w.skip(k)[i],
        ) || w.skip(k)[i] == ' ' by {
            assert(w.skip(k)[i] == w[i + k]);
        }
        lemma_title_tokens(w.skip(k));
        assert(ts[0] == TokenModel::Word(w.take(k)));
        assert(ts.skip(1) =~= title_tokens(w.skip(k)));
        assert(tokens_text(ts) == token_text(ts[0]) + tokens_text(ts.skip(1)));
        assert(w.take(k) + w.skip(k) =~= w);
        assert(tokens_text(ts) =~= w);
        assert forall|i: int| 0 <= i < ts.len() implies #[trigger] ts[i] != TokenModel::Equal by {
            if i > 0 {
                assert(ts[i] == title_tokens(w.skip(k))[i - 1]);
            }
        }
    }
}

/// Lexing a plain title followed by a space and the closing delimiters:
/// the title becomes its word and whitespace tokens, the space one
/// whitespace token, the delimiters one `Equal` each.
proof fn lemma_lex_title(w: Seq<char>, l: nat)
    requires
        l >= 1,
        forall|i: int| 0 <= i < w.len() ==> is_alnum_char(#[trigger] w[i]) || w[i] == ' ',
        w.len() >= 1 ==> w[w.len() - 1] != ' ',
        forall|i: int| 0 <= i < w.len() - 1 ==> !(#[trigger] w[i] == ' ' && w[i + 1] == ' '),
    ensures
        spec_lex(w + (seq![' '] + char_repeat('=', l))) == Ok::<
            Seq<TokenModel>,
            int,
        >(title_tokens(w) + (seq![TokenModel::Whitespace] + Seq::new(
            l,
            |i: int| TokenModel::Equal,
        ))),
    decreases w.len(),
{
    let rep = char_repeat('=', l);
    let s = w + (seq![' '] + rep);
    if w.len() == 0 {
        // only the space and the delimiters remain
        assert(s =~= seq![' '] + rep);
        assert(s[0] == ' ');
        assert(s[1] == rep[0]);
        assert(s[1] == '=');
        assert(next_token(s) == Some((TokenModel::Whitespace, 1int)));
        assert(s.skip(1) =~= rep);
        assert(rep + Seq::<char>::empty() =~= rep);
        assert(spec_lex(Seq::<char>::empty()) == Ok::<Seq<TokenModel>, int>(Seq::empty()));
        lemma_lex_equal_prefix(Seq::<char>::empty(), l);
        assert(Seq::new(l, |i: int| TokenModel::Equal) + Seq::<TokenModel>::empty() =~= Seq::new(
            l,
            |i: int| TokenModel::Equal,
        ));
        assert(title_tokens(w) + (seq![TokenModel::Whitespace] + Seq::new(
            l,
            |i: int| TokenModel::Equal,
        )) =~= seq![TokenModel::Whitespace] + Seq::new(l, |i: int| TokenModel::Equal));
    } else if w[0] == ' ' {
        // a separating space: exactly one whitespace token, since the
        // next character is a letter or digit
        assert(w.len() >= 2);
        assert(w[1] != ' ');
        assert(is_alnum_char(w[1]));
        assert(s[0] == ' ');
        assert(s[1] == w[1]);
        assert(next_token(s) == Some((TokenModel::Whitespace, 1int)));
        let w1 = w.skip(1);
        assert forall|i: int| 0 <= i < w1.len() implies is_alnum_char(#[trigger] w1[i]) || w1[i]
            == ' ' by {
            assert(w1[i] == w[i + 1]);
        }
        assert(w1[w1.len() - 1] == w[w.len() - 1]);
        assert forall|i: int| 0 <= i < w1.len() - 1 implies !(#[trigger] w1[i] == ' ' && w1[i + 1]
            == ' ') by {
            assert(w1[i] == w[i + 1] && w1[i + 1] == w[i + 2]);
        }
        lemma_lex_title(w1, l);
        assert(s.skip(1) =~= w1 + (seq![' '] + rep));
        assert(seq![TokenModel::Whitespace] + (title_tokens(w1) + (seq![TokenModel::Whitespace]
            + Seq::new(l, |i: int| TokenModel::Equal))) =~= title_tokens(w) + (seq![
            TokenModel::Whitespace,
        ] + Seq::new(l, |i: int| TokenModel::Equal)));
    } else {
        // a word: one maximal run of word characters, stopped by a space
        assert(is_alnum_char(w[0]));
        lemma_run_len(w, |c: char| is_alnum_char(c));
        let k = run_len(w, |c: char| is_alnum_char(c)) as int;
        assert(k >= 1);
        assert forall|i: int| 0 <= i < k implies (|ch: char| is_word_char(ch))(s[i]) by {
            assert(s[i] == w[i]);
            assert(is_alnum_char(w[i]));
        }
        assert(s[k] == if k < w.len() {
            w[k]
        } else {
            ' '
        });
        if k < w.len() {
            assert(!is_alnum_char(w[k]));
            assert(w[k] == ' ');
        }
        assert(s[k] == ' ');
        assert(!(|ch: char| is_word_char(ch))(s[k]));
        lemma_run_len_is(s, |ch: char| is_word_char(ch), k);
        assert(s.subrange(0, k) =~= w.take(k));
        assert(next_token(s) == Some((TokenModel::Word(w.take(k)), k)));
        let wk = w.skip(k);
        assert forall|i: int| 0 <= i < wk.len() implies is_alnum_char(#[trigger] wk[i]) || wk[i]
            == ' ' by {
            assert(wk[i] == w[i + k]);
        }
        if wk.len() >= 1 {
            assert(wk[wk.len() - 1] == w[w.len() - 1]);
        }
        assert forall|i: int| 0 <= i < wk.len() - 1 implies !(#[trigger] wk[i] == ' ' && wk[i + 1]
            == ' ') by {
            assert(wk[i] == w[i + k] && wk[i + 1] == w[i + k + 1]);
        }
        lemma_lex_title(wk, l);
        assert(s.skip(k) =~= wk + (seq![' '] + rep));
        assert(seq![TokenModel::Word(w.take(k))] + (title_tokens(wk) + (seq![
            TokenModel::Whitespace,
        ] + Seq::new(l, |i: int| TokenModel::Equal))) =~= title_tokens(w) + (seq![
            TokenModel::Whitespace,
        ] + Seq::new(l, |i: int| TokenModel::Equal)));
    }
}

/// Lexing the canonical form of a heading with a plain title: the opening
/// delimiters, a space, the title's words and spaces, a space, the
/// closing delimiters — each becoming exactly its own token.
pub proof fn lemma_lex_heading_canonical(l: nat, w: Seq<char>)
    requires
        l >= 1,
        plain_title(w),
    ensures
        spec_lex(
            char_repeat('=', l) + seq![' '] + w + seq![' '] + char_repeat(
                '=',
                l,
            ),
        ) == Ok::<Seq<TokenModel>, int>(
            Seq::new(l, |i: int| TokenModel::Equal) + seq![TokenModel::Whitespace] + title_tokens(
                w,
            ) + seq![TokenModel::Whitespace] + Seq::new(l, |i: int| TokenModel::Equal),
        ),
{
    let rep = char_repeat('=', l);
    let tail1 = seq![' '] + w + seq![' '] + rep;
    assert(tail1[0] == ' ');
    assert(tail1[1] == w[0]);
    assert(is_alnum_char(w[0]));
    assert(next_token(tail1) == Some((TokenModel::Whitespace, 1int)));
    lemma_lex_title(w, l);
    assert(tail1.skip(1) =~= w + (seq![' '] + rep));
    assert(spec_lex(tail1) == Ok::<Seq<TokenModel>, int>(
        seq![TokenModel::Whitespace] + (title_tokens(w) + (seq![TokenModel::Whitespace]
            + Seq::new(l, |i: int| TokenModel::Equal))),
    ));
    lemma_lex_equal_prefix(tail1, l);
    assert(rep + seq![' '] + w + seq![' '] + rep =~= rep + tail1);
    assert(Seq::new(l, |i: int| TokenModel::Equal) + (seq![TokenModel::Whitespace] + (title_tokens(
        w,
    ) + (seq![TokenModel::Whitespace] + Seq::new(l, |i: int| TokenModel::Equal)))) =~= Seq::new(
        l,
        |i: int| TokenModel::Equal,
    ) + seq![TokenModel::Whitespace] + title_tokens(w) + seq![TokenModel::Whitespace] + Seq::new(
        l,
        |i: int| TokenModel::Equal,
    ));
}

/// `tokens_text` distributes over concatenation.
pub proof fn lemma_tokens_text_concat(a: Seq<TokenModel>, b: Seq<TokenModel>)
    ensures
        tokens_text(a + b) == tokens_text(a) + tokens_text(b),
    decreases a.len(),
{
    if a.len() == 0 {
        assert(a + b =~= b);
        assert(tokens_text(a) =~= Seq::<char>::empty());
        assert(Seq::<char>::empty() + tokens_text(b) =~= tokens_text(b));
    } else {
        assert((a + b)[0] == a[0]);
        assert((a + b).skip(1) =~= a.skip(1) + b);
        lemma_tokens_text_concat(a.skip(1), b);
        assert(token_text(a[0]) + (tokens_text(a.skip(1)) + tokens_text(b)) =~= (token_text(a[0])
            + tokens_text(a.skip(1))) + tokens_text(b));
    }
}

/// An input on which re-serialization is exact: one holding no run of four
/// consecutive spaces. Such a run lexes as `Tabspace` and re-emits as a
/// tab — the one deliberate normalization; every other lexeme re-emits
/// character for character.
pub open spec fn faithful_input(s: Seq<char>) -> bool {
    forall|i: int|
        0 <= i <= s.len() - 4 ==> !(#[trigger] s[i] == ' ' && s[i + 1] == ' ' && s[i + 2] == ' '
            && s[i + 3] == ' ')
}

/// Every matched token re-emits exactly the span it consumed, with one
/// exception: the four-space form of `Tabspace`, which re-emits as a
/// tab — the one normalization the format accepts.
pub proof fn lemma_next_token_exact(s: Seq<char>)
    requires
        next_token(s) is Some,
    ensures
        ({
            let r = next_token(s).unwrap();
            token_text(r.0) =~= s.take(r.1) || (r.0 == TokenModel::Tabspace && r.1 == 4 && s.take(
                r.1,
            ) =~= seq![' ', ' ', ' ', ' '])
        }),
{
    let c = s[0];
    let (t, n) = next_token(s).unwrap();
    lemma_next_token_bounds(s);
    if c == '\n' || c == '\r' {
        let marked = s.len() > 1 && s[1] == '\u{a7}';
        let j: int = if marked {
            2
        } else {
            1
        };
        let d = run_len(s.skip(j), |ch: char| is_digit_char(ch));
        if d >= 1 && digits_value(s.subrange(j, j + d)) <= usize::MAX as nat {
            // the marker re-emits its newline, its sign and its digits
            assert(token_text(t) == seq![c] + (if marked {
                seq!['\u{a7}']
            } else {
                Seq::<char>::empty()
            }) + s.subrange(j, j + d));
            assert(token_text(t) =~= s.take(n));
        }
    } else if c == ' ' {
        if s.len() >= 4 && s[1] == ' ' && s[2] == ' ' && s[3] == ' ' {
            assert(s.take(4) =~= seq![' ', ' ', ' ', ' ']);
        }
    } else if c == '|' {
        if s.len() >= 2 && s[1] == ' ' {
            // the pipe re-emits every trailing space it consumed
            let sp = run_len(s.skip(1), |ch: char| ch == ' ');
            lemma_run_len(s.skip(1), |ch: char| ch == ' ');
            assert forall|k: int| 0 <= k < token_text(t).len() implies token_text(t)[k] == s.take(
                n,
            )[k] by {
                if k > 0 {
                    assert(s.skip(1)[k - 1] == ' ');
                    assert(s[k] == ' ');
                }
            }
            assert(token_text(t) =~= s.take(n));
        }
    }
}

/// On a faithful input, the matched token re-emits exactly the span it
/// consumed.
proof fn lemma_next_token_faithful(s: Seq<char>)
    requires
        faithful_input(s),
        next_token(s) is Some,
    ensures
        token_text(next_token(s).unwrap().0) =~= s.take(next_token(s).unwrap().1),
{
    lemma_next_token_exact(s);
    let (t, n) = next_token(s).unwrap();
    if t == TokenModel::Tabspace && n == 4 {
        assert(s.take(4)[0] == s[0] && s.take(4)[1] == s[1] && s.take(4)[2] == s[2] && s.take(4)[3]
            == s[3]);
    }
}

/// Round trip of the lexer: on any input that lexes and holds no
/// four-space run (see [`faithful_input`]), concatenating the re-emitted
/// text of the lexed tokens reproduces the input exactly. A four-space
/// run would re-emit as a tab — the one normalization the format accepts.
pub proof fn lemma_lex_round_trip(s: Seq<char>, ts: Seq<TokenModel>)
    requires
        spec_lex(s) == Ok::<Seq<TokenModel>, int>(ts),
        faithful_input(s),
    ensures
        tokens_text(ts) == s,
    decreases s.len(),
{
    if s.len() == 0 {
        assert(tokens_text(ts) =~= s);
    } else {
        let (t, n) = next_token(s).unwrap();
        lemma_next_token_bounds(s);
        lemma_next_token_faithful(s);
        let rest = spec_lex(s.skip(n))->Ok_0;
        assert(ts == seq![t] + rest);
        let tail = s.skip(n);
        assert(faithful_input(tail)) by {
            assert forall|i: int|
                0 <= i <= tail.len() - 4 implies !(#[trigger] tail[i] == ' ' && tail[i + 1] == ' '
                && tail[i + 2] == ' ' && tail[i + 3] == ' ') by {
                assert(tail[i] == s[n + i] && tail[i + 1] == s[n + i + 1] && tail[i + 2] == s[n + i
                    + 2] && tail[i + 3] == s[n + i + 3]);
            }
        }
        lemma_lex_round_trip(tail, rest);
        assert(ts.skip(1) =~= rest);
        assert(ts[0] == t);
        assert(tokens_text(ts) == token_text(t) + tokens_text(rest));
        assert(tokens_text(ts) =~= s.take(n) + s.skip(n));
        assert(s.take(n) + s.skip(n) =~= s);
    }
}

/// Relies on `String::push`: appends the given character at the end.
#[verifier::external_body]
pub(crate) fn push_char(s: &mut String, c: char)
    ensures
        final(s)@ == old(s)@.push(c),
{
    s.push(c)
}

/// Appends `n` copies of `c`.
pub(crate) fn push_repeat(s: &mut String, c: char, n: usize)
    ensures
        final(s)@ == old(s)@ + char_repeat(c, n as nat),
{
    let mut k: usize = 0;
    while k < n
        invariant
            0 <= k <= n,
            s@ == old(s)@ + char_repeat(c, k as nat),
        decreases n - k,
    {
        push_char(s, c);
        proof {
            assert(s@ =~= old(s)@ + char_repeat(c, (k + 1) as nat));
        }
        k += 1;
    }
}

/// Appends the decimal digit character of `d`.
fn push_digit(s: &mut String, d: usize)
    requires
        d < 10,
    ensures
        final(s)@ == old(s)@.push(digit_char(d as nat)),
{
    let c: char = if d == 0 {
        '0'
    } else if d == 1 {
        '1'
    } else if d == 2 {
        '2'
    } else if d == 3 {
        '3'
    } else if d == 4 {
        '4'
    } else if d == 5 {
        '5'
    } else if d == 6 {
        '6'
    } else if d == 7 {
        '7'
    } else if d == 8 {
        '8'
    } else {
        '9'
    };
    push_char(s, c);
}

/// Appends the decimal digit string of `n`.
pub(crate) fn push_digits(s: &mut String, n: usize)
    ensures
        final(s)@ == old(s)@ + spec_digits(n as nat),
    decreases n,
{
    if n < 10 {
        push_digit(s, n);
        assert(s@ =~= old(s)@ + spec_digits(n as nat));
    } else {
        push_digits(s, n / 10);
        push_digit(s, n % 10);
        assert(s@ =~= old(s)@ + spec_digits(n as nat));
    }
}

/// Appends the canonical text of one token.
pub(crate) fn push_token_text(s: &mut String, t: &Token)
    ensures
        final(s)@ == old(s)@ + token_text(t@),
{
    match t {
        Token::Equal => {
            proof {
                reveal_strlit("=");
            }
            s.append("=");
        },
        Token::Newline(c) => {
            push_char(s, *c);
        },
        Token::Index { value: _, newline, section_sign, digits } => {
            push_char(s, *newline);
            if *section_sign {
                push_char(s, '\u{a7}');
            }
            s.append(digits.as_str());
        },
        Token::Whitespace => {
            proof {
                reveal_strlit(" ");
            }
            s.append(" ");
        },
        Token::Tabspace => {
            proof {
                reveal_strlit("\t");
            }
            s.append("\t");
        },
        Token::LAngle => {
            proof {
                reveal_strlit("<");
            }
            s.append("<");
        },
        Token::RAngle => {
            proof {
                reveal_strlit(">");
            }
            s.append(">");
        },
        Token::ClassTerminator => {
            proof {
                reveal_strlit("</");
            }
            s.append("</");
        },
        Token::Word(w) => {
            s.append(w.as_str());
        },
        Token::Bold => {
            proof {
                reveal_strlit("'''");
            }
            s.append("'''");
        },
        Token::Italic => {
            proof {
                reveal_strlit("''");
            }
            s.append("''");
        },
        Token::InternalLink => {
            proof {
                reveal_strlit("[[");
            }
            s.append("[[");
        },
        Token::InternalLinkEnd => {
            proof {
                reveal_strlit("]]");
            }
            s.append("]]");
        },
        Token::ExternalLink => {
            proof {
                reveal_strlit("[");
            }
            s.append("[");
        },
        Token::ExternalLinkEnd => {
            proof {
                reveal_strlit("]");
            }
            s.append("]");
        },
        Token::Separator => {
            proof {
                reveal_strlit("----");
            }
            s.append("----");
        },
        Token::TableStart => {
            proof {
                reveal_strlit("{|");
            }
            s.append("{|");
        },
        Token::TableEnd => {
            proof {
                reveal_strlit("|}");
            }
            s.append("|}");
        },
        Token::TableHeading => {
            proof {
                reveal_strlit("\n! ");
            }
            s.append("\n! ");
        },
        Token::Pipe(k) => {
            proof {
                reveal_strlit("|");
            }
            s.append("|");
            push_repeat(s, ' ', *k);
        },
        Token::TableSeparator => {
            proof {
                reveal_strlit("|-");
            }
            s.append("|-");
        },
    }
    assert(s@ =~= old(s)@ + token_text(t@));
}

/// `tokens_text` distributes over splitting off a prefix element.
pub(crate) proof fn lemma_tokens_text_step(ts: Seq<TokenModel>, i: int)
    requires
        0 <= i < ts.len(),
    ensures
        tokens_text(ts.skip(i)) == token_text(ts[i]) + tokens_text(ts.skip(i + 1)),
{
    assert(ts.skip(i)[0] == ts[i]);
    assert(ts.skip(i).skip(1) =~= ts.skip(i + 1));
    assert(tokens_text(ts.skip(i)) == token_text(ts.skip(i)[0]) + tokens_text(ts.skip(i).skip(1)));
}

/// A decimal digit.
pub open spec fn is_digit_char(c: char) -> bool {
    48 <= c as u32 <= 57
}

/// A character that may stand inside a `Word` lexeme: ASCII alphanumerics
/// and `| \ / - + * % ! _ .`
pub open spec fn is_word_char(c: char) -> bool {
    (48 <= c as u32 <= 57) || (65 <= c as u32 <= 90) || (97 <= c as u32 <= 122) || c == '|' || c
        == '\\' || c == '/' || c == '-' || c == '+' || c == '*' || c == '%' || c == '!' || c == '_'
        || c == '.'
}

/// The length of the maximal prefix of `s` whose characters all satisfy `p`.
pub open spec fn run_len(s: Seq<char>, p: spec_fn(char) -> bool) -> nat
    decreases s.len(),
{
    if s.len() == 0 || !p(s[0]) {
        0
    } else {
        (1 + run_len(s.skip(1), p)) as nat
    }
}

/// Index-wise characterization of `run_len`.
pub proof fn lemma_run_len(s: Seq<char>, p: spec_fn(char) -> bool)
    ensures
        run_len(s, p) <= s.len(),
        forall|i: int| 0 <= i < run_len(s, p) ==> p(s[i]),
        run_len(s, p) < s.len() ==> !p(s[run_len(s, p) as int]),
    decreases s.len(),
{
    if s.len() > 0 && p(s[0]) {
        lemma_run_len(s.skip(1), p);
        assert forall|i: int| 0 <= i < run_len(s, p) implies p(s[i]) by {
            if i > 0 {
                assert(p(s.skip(1)[i - 1]));
            }
        }
        if run_len(s, p) < s.len() {
            assert(!p(s.skip(1)[run_len(s, p) - 1]));
        }
    }
}

/// `run_len` is the unique cut obeying the index-wise characterization.
pub proof fn lemma_run_len_is(s: Seq<char>, p: spec_fn(char) -> bool, n: int)
    requires
        0 <= n <= s.len(),
        forall|i: int| 0 <= i < n ==> p(s[i]),
        n < s.len() ==> !p(s[n]),
    ensures
        run_len(s, p) == n,
{
    lemma_run_len(s, p);
    let m = run_len(s, p) as int;
    if m < n {
        assert(p(s[m]));
    } else if m > n {
        assert(p(s[n]));
    }
}

/// The numeric value of a digit character.
pub open spec fn digit_val(c: char) -> nat {
    (c as u32 - 48) as nat
}

/// The value of a digit string read in base ten, most significant first.
pub open spec fn digits_value(s: Seq<char>) -> nat
    decreases s.len(),
{
    if s.len() == 0 {
        0
    } else {
        digits_value(s.take(s.len() - 1)) * 10 + digit_val(s[s.len() - 1])
    }
}

/// Reading one more digit never decreases the value.
pub(crate) proof fn lemma_digits_value_grows(s: Seq<char>)
    requires
        s.len() > 0,
    ensures
        digits_value(s) >= digits_value(s.take(s.len() - 1)),
{
    let p = digits_value(s.take(s.len() - 1));
    assert(p * 10 >= p) by (nonlinear_arith);
}

/// The token matched at the head of `s`, with the length of the span it
/// consumes: the longest applicable lexeme, ties resolved by specificity
/// (fixed punctuation over `Pipe` over `Word`). `None` means no lexeme
/// matches at this position, or an index marker whose value does not fit
/// the machine.
pub open spec fn next_token(s: Seq<char>) -> Option<(TokenModel, int)> {
    if s.len() == 0 {
        None
    } else {
        let c = s[0];
        if c == '=' {
            Some((TokenModel::Equal, 1))
        } else if c == '\n' || c == '\r' {
            let marked = s.len() > 1 && s[1] == '\u{a7}';
            let j: int = if marked {
                2
            } else {
                1
            };
            let d = run_len(s.skip(j), |ch: char| is_digit_char(ch));
            if d >= 1 {
                let v = digits_value(s.subrange(j, j + d));
                if v <= usize::MAX as nat {
                    Some(
                        (
                            TokenModel::Index {
                                value: v,
                                newline: c,
                                section_sign: marked,
                                digits: s.subrange(j, j + d),
                            },
                            j + d,
                        ),
                    )
                } else {
                    None
                }
            } else if c == '\n' && s.len() >= 3 && s[1] == '!' && s[2] == ' ' {
                Some((TokenModel::TableHeading, 3))
            } else {
                Some((TokenModel::Newline(c), 1))
            }
        } else if c == ' ' {
            if s.len() >= 4 && s[1] == ' ' && s[2] == ' ' && s[3] == ' ' {
                Some((TokenModel::Tabspace, 4))
            } else {
                Some((TokenModel::Whitespace, 1))
            }
        } else if c == '\t' {
            Some((TokenModel::Tabspace, 1))
        } else if c == '<' {
            if s.len() >= 2 && s[1] == '/' {
                Some((TokenModel::ClassTerminator, 2))
            } else {
                Some((TokenModel::LAngle, 1))
            }
        } else if c == '>' {
            Some((TokenModel::RAngle, 1))
        } else if c == '\'' {
            if s.len() >= 3 && s[1] == '\'' && s[2] == '\'' {
                Some((TokenModel::Bold, 3))
            } else if s.len() >= 2 && s[1] == '\'' {
                Some((TokenModel::Italic, 2))
            } else {
                None
            }
        } else if c == '[' {
            if s.len() >= 2 && s[1] == '[' {
                Some((TokenModel::InternalLink, 2))
            } else {
                Some((TokenModel::ExternalLink, 1))
            }
        } else if c == ']' {
            if s.len() >= 2 && s[1] == ']' {
                Some((TokenModel::InternalLinkEnd, 2))
            } else {
                Some((TokenModel::ExternalLinkEnd, 1))
            }
        } else if c == '{' {
            if s.len() >= 2 && s[1] == '|' {
                Some((TokenModel::TableStart, 2))
            } else {
                None
            }
        } else if c == '|' {
            let w = run_len(s, |ch: char| is_word_char(ch));
            if s.len() >= 2 && s[1] == '}' {
                Some((TokenModel::TableEnd, 2))
            } else if s.len() >= 2 && s[1] == '-' {
                if w == 2 {
                    Some((TokenModel::TableSeparator, 2))
                } else {
                    Some((TokenModel::Word(s.subrange(0, w as int)), w as int))
                }
            } else if s.len() >= 2 && s[1] == ' ' {
                let sp = run_len(s.skip(1), |ch: char| ch == ' ');
                Some((TokenModel::Pipe(sp), 1 + sp as int))
            } else if s.len() >= 2 && is_word_char(s[1]) {
                Some((TokenModel::Word(s.subrange(0, w as int)), w as int))
            } else {
                Some((TokenModel::Pipe(0), 1))
            }
        } else if c == '-' {
            let w = run_len(s, |ch: char| is_word_char(ch));
            if w == 4 && s.len() >= 4 && s[1] == '-' && s[2] == '-' && s[3] == '-' {
                Some((TokenModel::Separator, 4))
            } else {
                Some((TokenModel::Word(s.subrange(0, w as int)), w as int))
            }
        } else if is_word_char(c) {
            let w = run_len(s, |ch: char| is_word_char(ch));
            Some((TokenModel::Word(s.subrange(0, w as int)), w as int))
        } else {
            None
        }
    }
}

/// A matched token consumes at least one and at most all remaining characters.
pub proof fn lemma_next_token_bounds(s: Seq<char>)
    ensures
        next_token(s) matches Some(r) ==> 1 <= r.1 <= s.len(),
{
    if s.len() > 0 {
        let c = s[0];
        lemma_run_len(s, |ch: char| is_word_char(ch));
        lemma_run_len(s.skip(1), |ch: char| ch == ' ');
        if c == '\n' || c == '\r' {
            let j: int = if s.len() > 1 && s[1] == '\u{a7}' {
                2
            } else {
                1
            };
            lemma_run_len(s.skip(j), |ch: char| is_digit_char(ch));
        }
    }
}

/// The token sequence of `s`, or the offset at which no lexeme matches.
pub open spec fn spec_lex(s: Seq<char>) -> Result<Seq<TokenModel>, int>
    decreases s.len(),
{
    if s.len() == 0 {
        Ok(Seq::empty())
    } else {
        match next_token(s) {
            Option::None => Err(0),
            Option::Some((t, n)) => if 1 <= n <= s.len() {
                match spec_lex(s.skip(n)) {
                    Ok(ts) => Ok(seq![t] + ts),
                    Err(e) => Err(n + e),
                }
            } else {
                Err(0)
            },
        }
    }
}

/// A failed lexing: no lexeme matches at `offset` (or an index marker there
/// does not fit the machine's word size).
#[derive(Debug, Clone, PartialEq, Eq, Structural)]
pub struct LexError {
    pub offset: usize,
}

/// Appends the canonical text of every token, in order.
pub(crate) fn push_tokens_text(r: &mut String, tokens: &Vec<Token>)
    ensures
        final(r)@ == old(r)@ + tokens_text(tokens.deep_view()),
{
    let mut i: usize = 0;
    let ghost ts = tokens.deep_view();
    proof {
        assert(ts.skip(0) =~= ts);
    }
    while i < tokens.len()
        invariant
            0 <= i <= tokens.len(),
            ts == tokens.deep_view(),
            ts.len() == tokens.len(),
            old(r)@ + tokens_text(ts) == r@ + tokens_text(ts.skip(i as int)),
        decreases tokens.len() - i,
    {
        proof {
            lemma_tokens_text_step(ts, i as int);
        }
        let ghost before = r@;
        push_token_text(r, &tokens[i]);
        proof {
            assert(before + (token_text(ts[i as int]) + tokens_text(ts.skip(i + 1))) =~= r@
                + tokens_text(ts.skip(i + 1)));
        }
        i += 1;
    }
    proof {
        assert(ts.skip(tokens.len() as int) =~= Seq::<TokenModel>::empty());
        assert(r@ + Seq::<char>::empty() =~= r@);
    }
}

/// Concatenates the canonical text of every token, in order.
pub fn to_string(tokens: Vec<Token>) -> (r: String)
    ensures
        r@ == tokens_text(tokens.deep_view()),
{
    let mut r = String::new();
    push_tokens_text(&mut r, &tokens);
    proof {
        assert(Seq::<char>::empty() + tokens_text(tokens.deep_view()) =~= tokens_text(
            tokens.deep_view(),
        ));
    }
    r
}

} // verus!
