//! Text laid out in lines and columns.

use crate::text::chars_of;
use vstd::prelude::*;

verus! {

/// The texts of some strings.
pub open spec fn texts(v: Seq<String>) -> Seq<Seq<char>> {
    Seq::new(v.len(), |i: int| v[i]@)
}

/// Lines of text, one below the other.
#[derive(Debug)]
pub struct Page {
    pub lines: Vec<String>,
}

impl View for Page {
    type V = Seq<Seq<char>>;

    open spec fn view(&self) -> Seq<Seq<char>> {
        texts(self.lines@)
    }
}

impl Page {
    pub fn new() -> (r: Page)
        ensures
            r@ == Seq::<Seq<char>>::empty(),
    {
        let r = Page { lines: Vec::new() };
        assert(r@ =~= Seq::<Seq<char>>::empty());
        r
    }

    /// Write one more line.
    pub fn push(&mut self, line: String)
        ensures
            final(self)@ == old(self)@.push(line@),
    {
        let ghost before = self@;
        let ghost text = line@;
        self.lines.push(line);
        assert(self@ =~= before.push(text));
    }
}

/// The first `k` texts, set apart by commas.
pub open spec fn joined(parts: Seq<Seq<char>>, k: int) -> Seq<char>
    decreases k,
{
    if k <= 0 {
        seq![]
    } else if k == 1 {
        parts[0]
    } else {
        joined(parts, k - 1) + ", "@ + parts[k - 1]
    }
}

/// Texts set apart by commas.
pub fn join(parts: &Vec<String>) -> (r: String)
    ensures
        r@ == joined(texts(parts@), parts@.len() as int),
{
    let mut out = String::new();
    let mut i: usize = 0;
    assert(out@ =~= joined(texts(parts@), 0));
    while i < parts.len()
        invariant
            i <= parts@.len(),
            out@ == joined(texts(parts@), i as int),
        decreases parts@.len() - i,
    {
        if i > 0 {
            out.append(", ");
        }
        out.append(parts[i].as_str());
        i += 1;
        assert(out@ =~= joined(texts(parts@), i as int));
    }
    out
}

/// `n` times the same character.
pub open spec fn repeated(c: char, n: int) -> Seq<char> {
    Seq::new(
        if n > 0 {
            n as nat
        } else {
            0
        },
        |i: int| c,
    )
}

/// Append `n` times the same character.
pub fn push_repeated(out: &mut String, c: char, n: usize)
    ensures
        final(out)@ == old(out)@ + repeated(c, n as int),
{
    let ghost before = out@;
    let mut i: usize = 0;
    assert(out@ =~= before + repeated(c, 0));
    while i < n
        invariant
            i <= n,
            out@ == before + repeated(c, i as int),
        decreases n - i,
    {
        out.push(c);
        i += 1;
        assert(out@ =~= before + repeated(c, i as int));
    }
}

/// A text widened to `w` characters with spaces, which go after it when it is held to the left.
pub open spec fn padded(s: Seq<char>, w: int, left: bool) -> Seq<char> {
    if left {
        s + repeated(' ', w - s.len())
    } else {
        repeated(' ', w - s.len()) + s
    }
}

/// Append a text widened to `w` characters with spaces.
pub fn push_padded(out: &mut String, s: &str, w: usize, left: bool)
    ensures
        final(out)@ == old(out)@ + padded(s@, w as int, left),
{
    let ghost before = out@;
    let len: usize = chars_of(s).len();
    let gap: usize = if w > len {
        w - len
    } else {
        0
    };
    assert(repeated(' ', gap as int) =~= repeated(' ', w - s@.len()));
    if left {
        out.append(s);
        push_repeated(out, ' ', gap);
    } else {
        push_repeated(out, ' ', gap);
        out.append(s);
    }
    assert(out@ =~= before + padded(s@, w as int, left));
}

/// A text without its trailing spaces.
pub open spec fn unspaced(s: Seq<char>) -> Seq<char>
    decreases s.len(),
{
    if s.len() > 0 && s.last() == ' ' {
        unspaced(s.drop_last())
    } else {
        s
    }
}

/// A text without its trailing spaces.
pub fn without_trailing_spaces(s: &str) -> (r: String)
    ensures
        r@ == unspaced(s@),
{
    let cs = chars_of(s);
    let mut n: usize = cs.len();
    assert(s@.take(n as int) =~= s@);
    while n > 0 && cs[n - 1] == ' '
        invariant
            n <= cs@.len(),
            cs@ == s@,
            unspaced(s@) == unspaced(s@.take(n as int)),
        decreases n,
    {
        assert(s@.take(n as int).drop_last() =~= s@.take(n - 1));
        n -= 1;
    }
    let kept = vstd::slice::slice_subrange(cs.as_slice(), 0, n);
    assert(kept@ =~= s@.take(n as int));
    crate::text::text_of(kept)
}

/// A fixed-width table whose column widths come from the content.
///
/// Cells are formatted by the caller; the table only aligns them.
pub struct Table {
    pub headers: Vec<String>,
    pub rows: Vec<Vec<String>>,
    /// Columns to left-align. Everything else is right-aligned, which is what numbers want.
    pub left: Vec<usize>,
}

/// What a table holds.
pub struct Contents {
    pub headers: Seq<Seq<char>>,
    pub rows: Seq<Seq<Seq<char>>>,
    pub left: Seq<usize>,
}

impl View for Table {
    type V = Contents;

    open spec fn view(&self) -> Contents {
        Contents {
            headers: texts(self.headers@),
            rows: Seq::new(self.rows@.len(), |i: int| texts(self.rows@[i]@)),
            left: self.left@,
        }
    }
}

/// The larger of two widths.
pub open spec fn wider(a: int, b: int) -> int {
    if b > a {
        b
    } else {
        a
    }
}

/// The width of a column over its heading and its first `n` cells.
pub open spec fn column_width(t: Contents, i: int, n: int) -> int
    decreases n,
{
    if n <= 0 {
        t.headers[i].len() as int
    } else if i < t.rows[n - 1].len() {
        wider(column_width(t, i, n - 1), t.rows[n - 1][i].len() as int)
    } else {
        column_width(t, i, n - 1)
    }
}

/// The widths of every column.
pub open spec fn column_widths(t: Contents) -> Seq<int> {
    Seq::new(t.headers.len(), |i: int| column_width(t, i, t.rows.len() as int))
}

/// The first `n` cells of a line, aligned and set apart by a space.
pub open spec fn aligned(cells: Seq<Seq<char>>, widths: Seq<int>, left: Seq<usize>, n: int) -> Seq<
    char,
>
    decreases n,
{
    if n <= 0 {
        seq![]
    } else {
        let cell = padded(cells[n - 1], widths[n - 1], left.contains((n - 1) as usize));
        let before = aligned(cells, widths, left, n - 1);
        if n > 1 {
            before.push(' ') + cell
        } else {
            before + cell
        }
    }
}

/// The cells of a line that have a column.
pub open spec fn columned(cells: Seq<Seq<char>>, widths: Seq<int>) -> int {
    if cells.len() < widths.len() {
        cells.len() as int
    } else {
        widths.len() as int
    }
}

/// One line of a table, without the spaces its last cells leave behind.
pub open spec fn table_line(
    indent: Seq<char>,
    cells: Seq<Seq<char>>,
    widths: Seq<int>,
    left: Seq<usize>,
) -> Seq<char> {
    unspaced(indent + aligned(cells, widths, left, columned(cells, widths)))
}

/// The rule under the first `n` headings.
pub open spec fn rule(widths: Seq<int>, n: int) -> Seq<char>
    decreases n,
{
    if n <= 0 {
        seq![]
    } else if n > 1 {
        rule(widths, n - 1).push(' ') + repeated('-', widths[n - 1])
    } else {
        rule(widths, n - 1) + repeated('-', widths[n - 1])
    }
}

/// A table's lines: the headings, a rule, and the rows.
pub open spec fn laid_out(t: Contents, indent: Seq<char>) -> Seq<Seq<char>> {
    let widths = column_widths(t);
    seq![
        table_line(indent, t.headers, widths, t.left),
        indent + rule(widths, widths.len() as int),
    ] + Seq::new(t.rows.len(), |i: int| table_line(indent, t.rows[i], widths, t.left))
}

fn holds(list: &Vec<usize>, i: usize) -> (r: bool)
    ensures
        r == list@.contains(i),
{
    let mut k: usize = 0;
    while k < list.len()
        invariant
            k <= list@.len(),
            forall|j: int| 0 <= j < k ==> #[trigger] list@[j] != i,
        decreases list@.len() - k,
    {
        if list[k] == i {
            assert(list@[k as int] == i);
            return true;
        }
        k += 1;
    }
    false
}

impl Table {
    /// An empty table under these headings.
    pub fn new(headers: &[&str]) -> (r: Table)
        ensures
            r@.headers == Seq::new(headers@.len(), |i: int| headers@[i]@),
            r@.rows == Seq::<Seq<Seq<char>>>::empty(),
            r@.left == Seq::<usize>::empty(),
    {
        let mut hs: Vec<String> = Vec::new();
        let mut i: usize = 0;
        while i < headers.len()
            invariant
                i <= headers@.len(),
                hs@.len() == i,
                forall|j: int| 0 <= j < i ==> (#[trigger] hs@[j])@ == headers@[j]@,
            decreases headers@.len() - i,
        {
            hs.push(headers[i].to_owned());
            i += 1;
        }
        let r = Table { headers: hs, rows: Vec::new(), left: Vec::new() };
        assert(r@.headers =~= Seq::new(headers@.len(), |i: int| headers@[i]@));
        assert(r@.rows =~= Seq::<Seq<Seq<char>>>::empty());
        r
    }

    /// Hold these columns to the left.
    pub fn left_align(self, cols: &[usize]) -> (r: Table)
        ensures
            r@.headers == self@.headers,
            r@.rows == self@.rows,
            r@.left == cols@,
    {
        let mut left: Vec<usize> = Vec::new();
        let mut i: usize = 0;
        while i < cols.len()
            invariant
                i <= cols@.len(),
                left@ == cols@.take(i as int),
            decreases cols@.len() - i,
        {
            left.push(cols[i]);
            assert(cols@.take(i + 1) =~= cols@.take(i as int).push(cols@[i as int]));
            i += 1;
        }
        assert(cols@.take(cols@.len() as int) =~= cols@);
        let r = Table { headers: self.headers, rows: self.rows, left };
        assert(r@.rows =~= self@.rows);
        r
    }

    /// Add a row.
    pub fn row(&mut self, cells: Vec<String>)
        ensures
            final(self)@.headers == old(self)@.headers,
            final(self)@.left == old(self)@.left,
            final(self)@.rows == old(self)@.rows.push(texts(cells@)),
    {
        let ghost before = self@;
        let ghost added = texts(cells@);
        self.rows.push(cells);
        assert(self@.rows =~= before.rows.push(added));
    }

    fn width(&self, i: usize) -> (r: usize)
        requires
            i < self.headers@.len(),
        ensures
            r == column_width(self@, i as int, self.rows@.len() as int),
    {
        let mut w: usize = chars_of(self.headers[i].as_str()).len();
        let mut k: usize = 0;
        while k < self.rows.len()
            invariant
                k <= self.rows@.len(),
                i < self.headers@.len(),
                w == column_width(self@, i as int, k as int),
            decreases self.rows@.len() - k,
        {
            let row = &self.rows[k];
            assert(self@.rows[k as int] == texts(row@));
            if i < row.len() {
                let n: usize = chars_of(row[i].as_str()).len();
                assert(self@.rows[k as int][i as int].len() == n);
                if n > w {
                    w = n;
                }
            }
            k += 1;
        }
        w
    }

    fn line(&self, indent: &str, cells: &Vec<String>, widths: &Vec<usize>) -> (r: String)
        ensures
            r@ == table_line(
                indent@,
                texts(cells@),
                Seq::new(widths@.len(), |i: int| widths@[i] as int),
                self.left@,
            ),
    {
        let ghost ws = Seq::new(widths@.len(), |i: int| widths@[i] as int);
        let ghost cs = texts(cells@);
        let mut out = indent.to_owned();
        let n: usize = if cells.len() < widths.len() {
            cells.len()
        } else {
            widths.len()
        };
        let mut i: usize = 0;
        assert(out@ =~= indent@ + aligned(cs, ws, self.left@, 0));
        while i < n
            invariant
                i <= n,
                n <= cells@.len(),
                n <= widths@.len(),
                ws == Seq::new(widths@.len(), |i: int| widths@[i] as int),
                cs == texts(cells@),
                out@ == indent@ + aligned(cs, ws, self.left@, i as int),
            decreases n - i,
        {
            if i > 0 {
                out.push(' ');
            }
            push_padded(&mut out, cells[i].as_str(), widths[i], holds(&self.left, i));
            i += 1;
            assert(out@ =~= indent@ + aligned(cs, ws, self.left@, i as int));
        }
        without_trailing_spaces(out.as_str())
    }

    /// The table's lines, each behind an indent.
    pub fn render(&self, indent: &str) -> (r: Page)
        ensures
            r@ == laid_out(self@, indent@),
    {
        let mut widths: Vec<usize> = Vec::new();
        let mut i: usize = 0;
        while i < self.headers.len()
            invariant
                i <= self.headers@.len(),
                widths@.len() == i,
                forall|j: int|
                    0 <= j < i ==> #[trigger] widths@[j] == column_width(
                        self@,
                        j,
                        self.rows@.len() as int,
                    ),
            decreases self.headers@.len() - i,
        {
            let w: usize = self.width(i);
            widths.push(w);
            i += 1;
        }
        let ghost ws = column_widths(self@);
        assert(Seq::new(widths@.len(), |i: int| widths@[i] as int) =~= ws);
        let mut page = Page::new();
        page.push(self.line(indent, &self.headers, &widths));
        let mut under = indent.to_owned();
        let mut j: usize = 0;
        assert(under@ =~= indent@ + rule(ws, 0));
        while j < widths.len()
            invariant
                j <= widths@.len(),
                widths@.len() == ws.len(),
                forall|k: int| 0 <= k < ws.len() ==> #[trigger] widths@[k] == ws[k],
                under@ == indent@ + rule(ws, j as int),
            decreases widths@.len() - j,
        {
            if j > 0 {
                under.push(' ');
            }
            push_repeated(&mut under, '-', widths[j]);
            j += 1;
            assert(under@ =~= indent@ + rule(ws, j as int));
        }
        page.push(under);
        let ghost top = seq![
            table_line(indent@, self@.headers, ws, self.left@),
            indent@ + rule(ws, ws.len() as int),
        ];
        let ghost below = Seq::new(
            self@.rows.len(),
            |i: int| table_line(indent@, self@.rows[i], ws, self.left@),
        );
        assert(page@ =~= top + below.take(0));
        let mut k: usize = 0;
        while k < self.rows.len()
            invariant
                k <= self.rows@.len(),
                ws == Seq::new(widths@.len(), |i: int| widths@[i] as int),
                below == Seq::new(
                    self@.rows.len(),
                    |i: int| table_line(indent@, self@.rows[i], ws, self.left@),
                ),
                page@ == top + below.take(k as int),
            decreases self.rows@.len() - k,
        {
            page.push(self.line(indent, &self.rows[k], &widths));
            assert(self@.rows[k as int] == texts(self.rows@[k as int]@));
            k += 1;
            assert(page@ =~= top + below.take(k as int));
        }
        assert(below.take(below.len() as int) =~= below);
        page
    }
}

/// Every cell fits its column, and fills it: the columns of a table line up.
pub proof fn law_columns_line_up(t: Contents, i: int, k: int, left: bool)
    requires
        0 <= i < t.headers.len(),
        0 <= k < t.rows.len(),
        i < t.rows[k].len(),
    ensures
        padded(t.rows[k][i], column_widths(t)[i], left).len() == column_widths(t)[i],
        padded(t.headers[i], column_widths(t)[i], left).len() == column_widths(t)[i],
{
    lemma_width_covers(t, i, k, t.rows.len() as int);
    lemma_width_covers_heading(t, i, t.rows.len() as int);
}

proof fn lemma_width_covers(t: Contents, i: int, k: int, n: int)
    requires
        0 <= k < n <= t.rows.len(),
        i < t.rows[k].len(),
    ensures
        t.rows[k][i].len() <= column_width(t, i, n),
    decreases n,
{
    if k < n - 1 {
        lemma_width_covers(t, i, k, n - 1);
    }
}

proof fn lemma_width_covers_heading(t: Contents, i: int, n: int)
    ensures
        t.headers[i].len() <= column_width(t, i, n),
    decreases n,
{
    if n > 0 {
        lemma_width_covers_heading(t, i, n - 1);
    }
}

} // verus!
