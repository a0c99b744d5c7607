//! Syntax-tree node types for the wikitext dialect, each with its canonical
//! stringification. Serializing a node concatenates its children's canonical
//! lexeme forms with the structurally required separators, so that a parsed
//! document can be re-emitted as markup.

use vstd::prelude::*;

use crate::lexer::{char_repeat, push_char, push_digits, push_repeat, push_tokens_text,
    spec_digits, tokens_text, Token, TokenModel};

verus! {

/// A whitespace character, as trimmed from heading text and author
/// entries: the four ASCII whitespace characters the markup's own
/// alphabet can produce. Unicode whitespace outside this set is not
/// trimmed.
pub open spec fn is_space_char(c: char) -> bool {
    c == ' ' || c == '\t' || c == '\n' || c == '\r'
}

/// `s` without its leading whitespace.
pub open spec fn trim_front(s: Seq<char>) -> Seq<char>
    decreases s.len(),
{
    if s.len() > 0 && is_space_char(s[0]) {
        trim_front(s.skip(1))
    } else {
        s
    }
}

/// `s` without its trailing whitespace.
pub open spec fn trim_back(s: Seq<char>) -> Seq<char>
    decreases s.len(),
{
    if s.len() > 0 && is_space_char(s[s.len() - 1]) {
        trim_back(s.take(s.len() - 1))
    } else {
        s
    }
}

/// `s` without its leading and trailing whitespace.
pub open spec fn trim_seq(s: Seq<char>) -> Seq<char> {
    trim_back(trim_front(s))
}

/// Dropping a whitespace prefix is exactly `trim_front`.
pub proof fn lemma_trim_front_skip(s: Seq<char>, k: int)
    requires
        0 <= k <= s.len(),
        forall|i: int| 0 <= i < k ==> is_space_char(#[trigger] s[i]),
        k < s.len() ==> !is_space_char(s[k]),
    ensures
        trim_front(s) == s.skip(k),
    decreases k,
{
    if k == 0 {
        assert(s.skip(0) =~= s);
        if s.len() > 0 {
            assert(trim_front(s) == s);
        }
    } else {
        assert(is_space_char(s[0]));
        let tail = s.skip(1);
        assert forall|i: int| 0 <= i < k - 1 implies is_space_char(#[trigger] tail[i]) by {
            assert(tail[i] == s[i + 1]);
        }
        if k - 1 < tail.len() {
            assert(tail[k - 1] == s[k]);
        }
        lemma_trim_front_skip(tail, k - 1);
        assert(tail.skip(k - 1) =~= s.skip(k));
    }
}

/// Dropping a whitespace suffix is exactly `trim_back`.
pub proof fn lemma_trim_back_take(s: Seq<char>, k: int)
    requires
        0 <= k <= s.len(),
        forall|i: int| k <= i < s.len() ==> is_space_char(#[trigger] s[i]),
        k > 0 ==> !is_space_char(s[k - 1]),
    ensures
        trim_back(s) == s.take(k),
    decreases s.len(),
{
    if k == s.len() {
        assert(s.take(k) =~= s);
        if s.len() > 0 {
            assert(!is_space_char(s[s.len() - 1]));
        }
    } else {
        assert(is_space_char(s[s.len() - 1]));
        let front = s.take(s.len() - 1);
        assert forall|i: int| k <= i < front.len() implies is_space_char(#[trigger] front[i]) by {
            assert(front[i] == s[i]);
        }
        if k > 0 {
            assert(front[k - 1] == s[k - 1]);
        }
        lemma_trim_back_take(front, k);
        assert(front.take(k) =~= s.take(k));
    }
}

/// A leading space is dropped by `trim_front`.
proof fn lemma_trim_front_cons_space(x: Seq<char>)
    ensures
        trim_front(seq![' '] + x) == trim_front(x),
{
    let s = seq![' '] + x;
    assert(is_space_char(s[0]));
    assert(s.skip(1) =~= x);
}

/// A trailing space is dropped by `trim_back`.
proof fn lemma_trim_back_snoc_space(x: Seq<char>)
    ensures
        trim_back(x + seq![' ']) == trim_back(x),
{
    let s = x + seq![' '];
    assert(is_space_char(s[s.len() - 1]));
    assert(s.take(s.len() - 1) =~= x);
}

/// Appending a trailing space either survives `trim_front` or leaves
/// nothing, depending on whether anything else survives it.
proof fn lemma_trim_front_snoc_space(x: Seq<char>)
    ensures
        trim_front(x + seq![' ']) == if trim_front(x).len() > 0 {
            trim_front(x) + seq![' ']
        } else {
            Seq::<char>::empty()
        },
    decreases x.len(),
{
    let s = x + seq![' '];
    if x.len() == 0 {
        assert(s =~= seq![' ']);
        assert(s[0] == ' ');
        assert(s.skip(1) =~= Seq::<char>::empty());
        assert(trim_front(s) == trim_front(s.skip(1)));
        assert(trim_front(Seq::<char>::empty()) == Seq::<char>::empty());
        assert(trim_front(x) == x);
    } else if is_space_char(x[0]) {
        assert(s[0] == x[0]);
        assert(s.skip(1) =~= x.skip(1) + seq![' ']);
        lemma_trim_front_snoc_space(x.skip(1));
    } else {
        assert(s[0] == x[0]);
        assert(trim_front(s) == s);
        assert(trim_front(x) == x);
    }
}

/// Padding a text with one space on each side does not change its trim.
pub proof fn lemma_trim_pad_spaces(x: Seq<char>)
    ensures
        trim_seq(seq![' '] + x + seq![' ']) == trim_seq(x),
{
    assert(seq![' '] + x + seq![' '] =~= seq![' '] + (x + seq![' ']));
    lemma_trim_front_cons_space(x + seq![' ']);
    lemma_trim_front_snoc_space(x);
    if trim_front(x).len() > 0 {
        lemma_trim_back_snoc_space(trim_front(x));
    } else {
        assert(trim_back(Seq::<char>::empty()) =~= Seq::<char>::empty());
    }
}

/// Decides [`is_space_char`].
fn space_char(c: char) -> (b: bool)
    ensures
        b == is_space_char(c),
{
    c == ' ' || c == '\t' || c == '\n' || c == '\r'
}

/// The characters of `v`, without leading and trailing whitespace, as a
/// string.
pub(crate) fn trim_chars(v: &Vec<char>) -> (r: String)
    ensures
        r@ == trim_seq(v@),
{
    let n = v.len();
    let mut start: usize = 0;
    while start < n && space_char(v[start])
        invariant
            0 <= start <= n,
            n == v.len(),
            forall|i: int| 0 <= i < start ==> is_space_char(#[trigger] v@[i]),
        decreases n - start,
    {
        start += 1;
    }
    let mut end: usize = n;
    while end > start && space_char(v[end - 1])
        invariant
            start <= end <= n,
            n == v.len(),
            forall|i: int| end <= i < n ==> is_space_char(#[trigger] v@[i]),
        decreases end,
    {
        end -= 1;
    }
    proof {
        lemma_trim_front_skip(v@, start as int);
        let mid = v@.skip(start as int);
        assert forall|i: int| end - start <= i < mid.len() implies is_space_char(
            #[trigger] mid[i],
        ) by {
            assert(mid[i] == v@[start + i]);
        }
        if end > start {
            assert(mid[end - start - 1] == v@[end - 1]);
        }
        lemma_trim_back_take(mid, end - start);
        assert(mid.take(end - start) =~= v@.subrange(start as int, end as int));
    }
    let mut r = String::new();
    let mut i: usize = start;
    while i < end
        invariant
            start <= i <= end <= n,
            n == v.len(),
            r@ == v@.subrange(start as int, i as int),
        decreases end - i,
    {
        push_char(&mut r, v[i]);
        proof {
            assert(r@ =~= v@.subrange(start as int, i + 1));
        }
        i += 1;
    }
    r
}

/// A section heading: `level` is the shared length of the opening and the
/// closing `=` delimiter runs that framed it; `text` is the title with the
/// delimiters and incidental surrounding whitespace removed.
#[derive(Debug, Clone, PartialEq)]
pub struct Heading {
    pub level: usize,
    pub text: String,
}

/// The model of a [`Heading`].
pub struct HeadingModel {
    pub level: nat,
    pub text: Seq<char>,
}

impl View for Heading {
    type V = HeadingModel;

    open spec fn view(&self) -> HeadingModel {
        HeadingModel { level: self.level as nat, text: self.text@ }
    }
}

/// The canonical markup of a heading: `=`×level, a space, the text, a
/// space, `=`×level.
pub open spec fn heading_text(h: HeadingModel) -> Seq<char> {
    char_repeat('=', h.level) + seq![' '] + h.text + seq![' '] + char_repeat('=', h.level)
}

impl Heading {
    /// Re-emits the canonical markup of this heading.
    pub fn to_string(&self) -> (r: String)
        ensures
            r@ == heading_text(self@),
    {
        let mut r = String::new();
        push_repeat(&mut r, '=', self.level);
        proof {
            reveal_strlit(" ");
        }
        r.append(" ");
        r.append(self.text.as_str());
        r.append(" ");
        push_repeat(&mut r, '=', self.level);
        proof {
            assert(r@ =~= heading_text(self@));
        }
        r
    }
}

/// A top-level statement: a numbered clause, or the untitled preamble text
/// before the first numbered clause.
#[derive(Debug, Clone, PartialEq)]
pub enum Stmt {
    /// A numbered legal clause. `index` is the numeric value captured from
    /// its leading index marker; `changes` is supplied by outside
    /// collaborators and defaults to `false` — it is never derived here.
    Clause { text: Vec<Token>, index: usize, changes: bool },
    /// Untitled text preceding the first numbered clause.
    Preamble(Vec<Token>),
}

/// The model of a [`Stmt`].
pub enum StmtModel {
    Clause { text: Seq<TokenModel>, index: nat, changes: bool },
    Preamble(Seq<TokenModel>),
}

impl View for Stmt {
    type V = StmtModel;

    open spec fn view(&self) -> StmtModel {
        match self {
            Stmt::Clause { text, index, changes } => StmtModel::Clause {
                text: text.deep_view(),
                index: *index as nat,
                changes: *changes,
            },
            Stmt::Preamble(text) => StmtModel::Preamble(text.deep_view()),
        }
    }
}

impl DeepView for Stmt {
    type V = StmtModel;

    open spec fn deep_view(&self) -> StmtModel {
        self.view()
    }
}

/// The canonical markup of a statement: a clause re-emits `§`, its index,
/// `. `, its body, then a blank line; a preamble re-emits its body followed
/// by a `<br>` line break.
pub open spec fn stmt_text(s: StmtModel) -> Seq<char> {
    match s {
        StmtModel::Clause { text, index, changes } => seq!['\u{a7}'] + spec_digits(index) + seq![
            '.',
            ' ',
        ] + tokens_text(text) + seq!['\n', '\n'],
        StmtModel::Preamble(text) => tokens_text(text) + seq!['<', 'b', 'r', '>'],
    }
}

impl Stmt {
    /// Re-emits the canonical markup of this statement.
    pub fn to_string(&self) -> (r: String)
        ensures
            r@ == stmt_text(self@),
    {
        let mut r = String::new();
        match self {
            Stmt::Clause { text, index, changes: _ } => {
                push_char(&mut r, '\u{a7}');
                push_digits(&mut r, *index);
                proof {
                    reveal_strlit(". ");
                    reveal_strlit("\n\n");
                }
                r.append(". ");
                push_tokens_text(&mut r, text);
                r.append("\n\n");
            },
            Stmt::Preamble(text) => {
                push_tokens_text(&mut r, text);
                proof {
                    reveal_strlit("<br>");
                }
                r.append("<br>");
            },
        }
        proof {
            assert(r@ =~= stmt_text(self@));
        }
        r
    }
}

/// One table cell: an ordered run of inline tokens.
#[derive(Debug, Clone, PartialEq)]
pub struct Cell(Vec<Token>);

impl View for Cell {
    type V = Seq<TokenModel>;

    closed spec fn view(&self) -> Seq<TokenModel> {
        self.0.deep_view()
    }
}

impl DeepView for Cell {
    type V = Seq<TokenModel>;

    open spec fn deep_view(&self) -> Seq<TokenModel> {
        self.view()
    }
}

impl Cell {
    /// Wraps a token run as a cell.
    pub fn new(tokens: Vec<Token>) -> (r: Cell)
        ensures
            r@ == tokens.deep_view(),
    {
        Cell(tokens)
    }

    /// The cell's tokens, in order.
    pub fn tokens(&self) -> (r: &Vec<Token>)
        ensures
            r.deep_view() == self@,
    {
        &self.0
    }

    /// Re-emits the cell's inline text.
    pub fn to_string(&self) -> (r: String)
        ensures
            r@ == tokens_text(self@),
    {
        let mut r = String::new();
        push_tokens_text(&mut r, &self.0);
        proof {
            assert(r@ =~= tokens_text(self@));
        }
        r
    }
}

/// A table: a style string, an optional header row, and the body rows.
/// When the table has a header, each body row is conceptually aligned
/// column-for-column with it; the alignment is not length-enforced here.
#[derive(Debug, Clone, PartialEq)]
pub struct Table {
    pub style: String,
    pub header: Option<Vec<Cell>>,
    pub cells: Vec<Vec<Cell>>,
}

/// The model of a [`Table`].
pub struct TableModel {
    pub style: Seq<char>,
    pub header: Option<Seq<Seq<TokenModel>>>,
    pub cells: Seq<Seq<Seq<TokenModel>>>,
}

impl View for Table {
    type V = TableModel;

    open spec fn view(&self) -> TableModel {
        TableModel {
            style: self.style@,
            header: self.header.deep_view(),
            cells: self.cells.deep_view(),
        }
    }
}

/// The markup of a run of header cells: each cell prefixed by `! ` and
/// followed by a newline.
pub open spec fn header_cells_text(hs: Seq<Seq<TokenModel>>) -> Seq<char>
    decreases hs.len(),
{
    if hs.len() == 0 {
        Seq::empty()
    } else {
        seq!['!', ' '] + tokens_text(hs[0]) + seq!['\n'] + header_cells_text(hs.skip(1))
    }
}

/// The markup of one body row's cells: each cell prefixed by `| ` and
/// followed by a newline.
pub open spec fn row_cells_text(row: Seq<Seq<TokenModel>>) -> Seq<char>
    decreases row.len(),
{
    if row.len() == 0 {
        Seq::empty()
    } else {
        seq!['|', ' '] + tokens_text(row[0]) + seq!['\n'] + row_cells_text(row.skip(1))
    }
}

/// The markup of the body rows: each row's cells followed by a `|-` row
/// separator line.
pub open spec fn rows_text(rows: Seq<Seq<Seq<TokenModel>>>) -> Seq<char>
    decreases rows.len(),
{
    if rows.len() == 0 {
        Seq::empty()
    } else {
        row_cells_text(rows[0]) + seq!['|', '-', '\n'] + rows_text(rows.skip(1))
    }
}

/// The canonical markup of a table: the opening marker and style, a row
/// separator, the optional header lines followed by their separator, the
/// body rows, and the closing marker.
pub open spec fn table_text(t: TableModel) -> Seq<char> {
    seq!['{', '|', ' '] + t.style + seq!['\n', '|', '-', '\n'] + (match t.header {
        Option::Some(hs) => header_cells_text(hs) + seq!['|', '-', '\n'],
        Option::None => Seq::empty(),
    }) + rows_text(t.cells) + seq!['|', '}']
}

proof fn lemma_header_cells_text_step(hs: Seq<Seq<TokenModel>>, i: int)
    requires
        0 <= i < hs.len(),
    ensures
        header_cells_text(hs.skip(i)) == seq!['!', ' '] + tokens_text(hs[i]) + seq!['\n']
            + header_cells_text(hs.skip(i + 1)),
{
    assert(hs.skip(i)[0] == hs[i]);
    assert(hs.skip(i).skip(1) =~= hs.skip(i + 1));
}

proof fn lemma_row_cells_text_step(row: Seq<Seq<TokenModel>>, i: int)
    requires
        0 <= i < row.len(),
    ensures
        row_cells_text(row.skip(i)) == seq!['|', ' '] + tokens_text(row[i]) + seq!['\n']
            + row_cells_text(row.skip(i + 1)),
{
    assert(row.skip(i)[0] == row[i]);
    assert(row.skip(i).skip(1) =~= row.skip(i + 1));
}

proof fn lemma_rows_text_step(rows: Seq<Seq<Seq<TokenModel>>>, i: int)
    requires
        0 <= i < rows.len(),
    ensures
        rows_text(rows.skip(i)) == row_cells_text(rows[i]) + seq!['|', '-', '\n'] + rows_text(
            rows.skip(i + 1),
        ),
{
    assert(rows.skip(i)[0] == rows[i]);
    assert(rows.skip(i).skip(1) =~= rows.skip(i + 1));
}

/// Appends one body row: each cell as `| cell\n`.
fn push_row_cells(r: &mut String, row: &Vec<Cell>)
    ensures
        final(r)@ == old(r)@ + row_cells_text(row.deep_view()),
{
    let ghost rs = row.deep_view();
    let mut i: usize = 0;
    proof {
        assert(rs.skip(0) =~= rs);
    }
    while i < row.len()
        invariant
            0 <= i <= row.len(),
            rs == row.deep_view(),
            rs.len() == row.len(),
            old(r)@ + row_cells_text(rs) == r@ + row_cells_text(rs.skip(i as int)),
        decreases row.len() - i,
    {
        proof {
            lemma_row_cells_text_step(rs, i as int);
            reveal_strlit("| ");
            reveal_strlit("\n");
        }
        let ghost before = r@;
        r.append("| ");
        push_tokens_text(r, row[i].tokens());
        r.append("\n");
        proof {
            assert(before + (seq!['|', ' '] + tokens_text(rs[i as int]) + seq!['\n']
                + row_cells_text(rs.skip(i + 1))) =~= r@ + row_cells_text(rs.skip(i + 1)));
        }
        i += 1;
    }
    proof {
        assert(row_cells_text(rs.skip(row.len() as int)) =~= Seq::<char>::empty());
        assert(r@ + Seq::<char>::empty() =~= r@);
    }
}

impl Table {
    /// Re-emits the canonical markup of this table.
    pub fn to_string(&self) -> (r: String)
        ensures
            r@ == table_text(self@),
    {
        proof {
            reveal_strlit("{| ");
            reveal_strlit("\n|-\n");
            reveal_strlit("|-\n");
            reveal_strlit("! ");
            reveal_strlit("\n");
            reveal_strlit("|}");
        }
        let mut r = String::new();
        r.append("{| ");
        r.append(self.style.as_str());
        r.append("\n|-\n");
        let ghost opening = r@;
        match &self.header {
            Option::Some(hs) => {
                let ghost hv = hs.deep_view();
                let mut i: usize = 0;
                proof {
                    assert(hv.skip(0) =~= hv);
                }
                while i < hs.len()
                    invariant
                        0 <= i <= hs.len(),
                        hv == hs.deep_view(),
                        hv.len() == hs.len(),
                        opening + header_cells_text(hv) == r@ + header_cells_text(
                            hv.skip(i as int),
                        ),
                    decreases hs.len() - i,
                {
                    proof {
                        lemma_header_cells_text_step(hv, i as int);
                        reveal_strlit("! ");
                        reveal_strlit("\n");
                    }
                    let ghost before = r@;
                    r.append("! ");
                    push_tokens_text(&mut r, hs[i].tokens());
                    r.append("\n");
                    proof {
                        assert(before + (seq!['!', ' '] + tokens_text(hv[i as int]) + seq!['\n']
                            + header_cells_text(hv.skip(i + 1))) =~= r@ + header_cells_text(
                            hv.skip(i + 1),
                        ));
                    }
                    i += 1;
                }
                proof {
                    assert(header_cells_text(hv.skip(hs.len() as int)) =~= Seq::<char>::empty());
                    assert(r@ + Seq::<char>::empty() =~= r@);
                }
                r.append("|-\n");
            },
            Option::None => {},
        }
        let ghost after_header = r@;
        let ghost rows = self.cells.deep_view();
        let mut j: usize = 0;
        proof {
            assert(rows.skip(0) =~= rows);
        }
        while j < self.cells.len()
            invariant
                0 <= j <= self.cells.len(),
                rows == self.cells.deep_view(),
                rows.len() == self.cells.len(),
                after_header + rows_text(rows) == r@ + rows_text(rows.skip(j as int)),
            decreases self.cells.len() - j,
        {
            proof {
                lemma_rows_text_step(rows, j as int);
                reveal_strlit("|-\n");
            }
            let ghost before = r@;
            push_row_cells(&mut r, &self.cells[j]);
            r.append("|-\n");
            proof {
                assert(before + (row_cells_text(rows[j as int]) + seq!['|', '-', '\n'] + rows_text(
                    rows.skip(j + 1),
                )) =~= r@ + rows_text(rows.skip(j + 1)));
            }
            j += 1;
        }
        proof {
            assert(rows_text(rows.skip(self.cells.len() as int)) =~= Seq::<char>::empty());
            assert(r@ + Seq::<char>::empty() =~= r@);
        }
        r.append("|}");
        proof {
            assert(r@ =~= table_text(self@));
        }
        r
    }
}

/// An inline element written with HTML-style angle-bracket delimiters: a
/// name, `key=value` attribute pairs, and the enclosed body tokens. The
/// opening and the closing name matched when it was parsed.
#[derive(Debug, Clone, PartialEq)]
pub struct HTMLClass {
    pub name: String,
    pub attributes: Vec<(String, String)>,
    pub text: Vec<Token>,
}

/// The model of an [`HTMLClass`].
pub struct HTMLClassModel {
    pub name: Seq<char>,
    pub attributes: Seq<(Seq<char>, Seq<char>)>,
    pub text: Seq<TokenModel>,
}

impl View for HTMLClass {
    type V = HTMLClassModel;

    open spec fn view(&self) -> HTMLClassModel {
        HTMLClassModel {
            name: self.name@,
            attributes: Seq::new(
                self.attributes@.len(),
                |i: int| (self.attributes@[i].0@, self.attributes@[i].1@),
            ),
            text: self.text.deep_view(),
        }
    }
}

} // verus!
