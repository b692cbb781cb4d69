//! A boxed table renderer whose column alignment goes by each cell's declared
//! visible width, so that colour escapes inside a cell never shift a column.
use vstd::prelude::*;
use vstd::string::StringExecFns;
use crate::color::{decorated, dim, dim_code, green, green_code};
use crate::text::push_char;

verus! {

/// A cell: the text to emit, which may hold colour escapes, and the width it
/// takes on screen.
pub struct Cell {
    pub text: String,
    pub width: usize,
}

impl Cell {
    /// A plain cell, as wide as its text is long.
    pub fn new(text: &str) -> (r: Cell)
        ensures
            r.text@ == text@,
            r.width == text.len(),
    {
        Cell { text: String::from_str(text), width: text.len() }
    }

    /// A cell whose text is already decorated, with its visible width given.
    pub fn colored(text: String, width: usize) -> (r: Cell)
        ensures
            r.text == text,
            r.width == width,
    {
        Cell { text, width }
    }
}

/// `n` copies of `c`.
pub open spec fn repeated(c: char, n: nat) -> Seq<char> {
    Seq::new(n, |i: int| c)
}

/// A box-drawing glyph in the border colour.
pub open spec fn glyph(c: char) -> Seq<char> {
    decorated(dim_code(), seq![c])
}

/// `row` widened into the widths `w`: each column takes the larger of the two.
pub open spec fn widen(w: Seq<usize>, row: Seq<Cell>) -> Seq<usize> {
    Seq::new(w.len(), |i: int| if i < row.len() && row[i].width > w[i] { row[i].width } else { w[i] })
}

/// The width of each column: the largest width of the header and of the cells
/// that the rows hold in that column.
pub open spec fn column_widths(headers: Seq<Cell>, rows: Seq<Seq<Cell>>) -> Seq<usize>
    decreases rows.len(),
{
    if rows.len() == 0 {
        headers.map_values(|c: Cell| c.width)
    } else {
        widen(column_widths(headers, rows.drop_last()), rows.last())
    }
}

/// The horizontal runs of a rule, one per column, each two wider than its
/// column, with `mid` between neighbours.
pub open spec fn rule_runs(w: Seq<usize>, mid: char, fill: char) -> Seq<char>
    decreases w.len(),
{
    if w.len() == 0 {
        Seq::empty()
    } else if w.len() == 1 {
        decorated(dim_code(), repeated(fill, (w[0] + 2) as nat))
    } else {
        rule_runs(w.drop_last(), mid, fill) + glyph(mid) + decorated(dim_code(), repeated(fill, (w.last() + 2) as nat))
    }
}

/// A full rule line, ended by a newline.
pub open spec fn rule_line(w: Seq<usize>, left: char, mid: char, right: char, fill: char) -> Seq<char> {
    glyph(left) + rule_runs(w, mid, fill) + glyph(right) + seq!['\n']
}

pub open spec fn top_border(w: Seq<usize>) -> Seq<char> {
    rule_line(w, '╭', '┬', '╮', '─')
}

pub open spec fn header_separator(w: Seq<usize>) -> Seq<char> {
    rule_line(w, '├', '┼', '┤', '─')
}

pub open spec fn dotted_separator(w: Seq<usize>) -> Seq<char> {
    rule_line(w, '├', '┼', '┤', '╌')
}

pub open spec fn bottom_border(w: Seq<usize>) -> Seq<char> {
    rule_line(w, '╰', '┴', '╯', '─')
}

/// The text of column `i` of a row; empty where the row is shorter.
pub open spec fn cell_text(cells: Seq<Cell>, i: int) -> Seq<char> {
    if i < cells.len() {
        cells[i].text@
    } else {
        Seq::empty()
    }
}

/// The visible width of column `i` of a row; zero where the row is shorter.
pub open spec fn cell_width(cells: Seq<Cell>, i: int) -> int {
    if i < cells.len() {
        cells[i].width as int
    } else {
        0
    }
}

/// The columns of a content line: each cell padded to its column's width by its
/// declared width, one space on either side, then a vertical bar.
pub open spec fn row_columns(cells: Seq<Cell>, w: Seq<usize>) -> Seq<char>
    decreases w.len(),
{
    if w.len() == 0 {
        Seq::empty()
    } else {
        let i = w.len() - 1;
        row_columns(cells, w.drop_last()) + seq![' '] + cell_text(cells, i) + repeated(
            ' ',
            (w[i] - cell_width(cells, i)) as nat,
        ) + seq![' '] + glyph('│')
    }
}

/// A content line, ended by a newline.
pub open spec fn row_line(cells: Seq<Cell>, w: Seq<usize>) -> Seq<char> {
    glyph('│') + row_columns(cells, w) + seq!['\n']
}

/// The lines of the body: each row's line, with a dotted separator between
/// neighbouring rows.
pub open spec fn body_lines(rows: Seq<Seq<Cell>>, w: Seq<usize>) -> Seq<Seq<char>>
    decreases rows.len(),
{
    if rows.len() == 0 {
        Seq::empty()
    } else if rows.len() == 1 {
        seq![row_line(rows[0], w)]
    } else {
        body_lines(rows.drop_last(), w).push(dotted_separator(w)).push(row_line(rows.last(), w))
    }
}

/// The lines of a rendered table, top to bottom.
pub open spec fn table_lines(headers: Seq<Cell>, rows: Seq<Seq<Cell>>) -> Seq<Seq<char>> {
    let w = column_widths(headers, rows);
    seq![top_border(w), row_line(headers, w), header_separator(w)] + body_lines(rows, w) + seq![
        bottom_border(w),
    ]
}

/// The lines one after the other.
pub open spec fn joined(lines: Seq<Seq<char>>) -> Seq<char>
    decreases lines.len(),
{
    if lines.len() == 0 {
        Seq::empty()
    } else {
        joined(lines.drop_last()) + lines.last()
    }
}

/// The rendered text of a table.
pub open spec fn rendered(headers: Seq<Cell>, rows: Seq<Seq<Cell>>) -> Seq<char> {
    joined(table_lines(headers, rows))
}

/// Every column, with its padding, has a width that a `usize` holds.
pub open spec fn widths_fit(headers: Seq<Cell>, rows: Seq<Seq<Cell>>) -> bool {
    forall|i: int|
        0 <= i < column_widths(headers, rows).len() ==> column_widths(headers, rows)[i] + 2
            <= usize::MAX
}

/// A table of boxed rows under a header.
pub struct Table {
    headers: Vec<Cell>,
    rows: Vec<Vec<Cell>>,
}

impl Table {
    /// The header cells.
    pub closed spec fn header_cells(&self) -> Seq<Cell> {
        self.headers@
    }

    /// The rows, each a sequence of cells.
    pub closed spec fn body(&self) -> Seq<Seq<Cell>> {
        self.rows@.map_values(|r: Vec<Cell>| r@)
    }
}

/// Every cell lies within its column's width, and there are as many columns as
/// headers.
proof fn lemma_widths_bound(headers: Seq<Cell>, rows: Seq<Seq<Cell>>)
    ensures
        column_widths(headers, rows).len() == headers.len(),
        forall|i: int| 0 <= i < headers.len() ==> headers[i].width <= column_widths(headers, rows)[i],
        forall|r: int, i: int|
            0 <= r < rows.len() && 0 <= i < rows[r].len() && i < headers.len()
                ==> (#[trigger] rows[r][i]).width <= column_widths(headers, rows)[i],
    decreases rows.len(),
{
    if rows.len() > 0 {
        let prev = rows.drop_last();
        lemma_widths_bound(headers, prev);
        assert forall|r: int, i: int|
            0 <= r < rows.len() && 0 <= i < rows[r].len() && i < headers.len()
                implies (#[trigger] rows[r][i]).width <= column_widths(headers, rows)[i] by {
            if r < rows.len() - 1 {
                assert(rows[r] == prev[r]);
                assert(rows[r][i].width <= column_widths(headers, prev)[i]);
            }
        }
    }
}

proof fn lemma_joined_push(lines: Seq<Seq<char>>, x: Seq<char>)
    ensures
        joined(lines.push(x)) == joined(lines) + x,
{
    assert(lines.push(x).drop_last() =~= lines);
}

proof fn lemma_body_shape(rows: Seq<Seq<Cell>>, w: Seq<usize>)
    requires
        rows.len() >= 1,
    ensures
        body_lines(rows, w).len() == 2 * rows.len() - 1,
        forall|i: int| 0 <= i < rows.len() ==> #[trigger] body_lines(rows, w)[2 * i] == row_line(rows[i], w),
        forall|i: int|
            0 <= i < rows.len() - 1 ==> #[trigger] body_lines(rows, w)[2 * i + 1] == dotted_separator(w),
    decreases rows.len(),
{
    if rows.len() > 1 {
        let prev = rows.drop_last();
        lemma_body_shape(prev, w);
        let b = body_lines(rows, w);
        assert forall|i: int| 0 <= i < rows.len() implies #[trigger] b[2 * i] == row_line(rows[i], w) by {
            if i < rows.len() - 1 {
                assert(b[2 * i] == body_lines(prev, w)[2 * i]);
            }
        }
        assert forall|i: int| 0 <= i < rows.len() - 1 implies #[trigger] b[2 * i + 1] == dotted_separator(w) by {
            if i < rows.len() - 2 {
                assert(b[2 * i + 1] == body_lines(prev, w)[2 * i + 1]);
            }
        }
    }
}

/// A table with at least one row renders as one top border, the header line,
/// one header separator, a content line per row with a dotted separator between
/// each two neighbouring rows (rows - 1 of them), and one bottom border: 2 * rows
/// + 3 lines, rows + 1 of them content lines.
pub proof fn lemma_table_shape(headers: Seq<Cell>, rows: Seq<Seq<Cell>>)
    requires
        rows.len() >= 1,
    ensures
        ({
            let w = column_widths(headers, rows);
            let lines = table_lines(headers, rows);
            &&& rendered(headers, rows) == joined(lines)
            &&& lines.len() == 2 * rows.len() + 3
            &&& lines[0] == top_border(w)
            &&& lines[1] == row_line(headers, w)
            &&& lines[2] == header_separator(w)
            &&& forall|i: int| 0 <= i < rows.len() ==> #[trigger] lines[3 + 2 * i] == row_line(rows[i], w)
            &&& forall|i: int| 0 <= i < rows.len() - 1 ==> #[trigger] lines[4 + 2 * i] == dotted_separator(w)
            &&& lines[lines.len() - 1] == bottom_border(w)
        }),
{
    let w = column_widths(headers, rows);
    let lines = table_lines(headers, rows);
    let b = body_lines(rows, w);
    lemma_body_shape(rows, w);
    assert forall|i: int| 0 <= i < rows.len() implies #[trigger] lines[3 + 2 * i] == row_line(rows[i], w) by {
        assert(lines[3 + 2 * i] == b[2 * i]);
    }
    assert forall|i: int| 0 <= i < rows.len() - 1 implies #[trigger] lines[4 + 2 * i] == dotted_separator(w) by {
        assert(lines[4 + 2 * i] == b[2 * i + 1]);
    }
}

/// How many of `lines` equal `x`.
pub open spec fn count_equal(lines: Seq<Seq<char>>, x: Seq<char>) -> nat
    decreases lines.len(),
{
    if lines.len() == 0 {
        0
    } else {
        count_equal(lines.drop_last(), x) + if lines.last() == x {
            1nat
        } else {
            0nat
        }
    }
}

/// Whether `line` opens with a vertical bar: a header or body content line.
pub open spec fn is_content(line: Seq<char>) -> bool {
    line.len() > dim_code().len() && line[dim_code().len() as int] == '│'
}

/// How many of `lines` are content lines.
pub open spec fn count_content(lines: Seq<Seq<char>>) -> nat
    decreases lines.len(),
{
    if lines.len() == 0 {
        0
    } else {
        count_content(lines.drop_last()) + if is_content(lines.last()) {
            1nat
        } else {
            0nat
        }
    }
}

proof fn lemma_counts_concat(a: Seq<Seq<char>>, b: Seq<Seq<char>>, x: Seq<char>)
    ensures
        count_equal(a + b, x) == count_equal(a, x) + count_equal(b, x),
        count_content(a + b) == count_content(a) + count_content(b),
    decreases b.len(),
{
    if b.len() == 0 {
        assert(a + b =~= a);
    } else {
        lemma_counts_concat(a, b.drop_last(), x);
        assert((a + b).drop_last() =~= a + b.drop_last());
    }
}

proof fn lemma_counts_push(lines: Seq<Seq<char>>, y: Seq<char>, x: Seq<char>)
    ensures
        count_equal(lines.push(y), x) == count_equal(lines, x) + if y == x {
            1nat
        } else {
            0nat
        },
        count_content(lines.push(y)) == count_content(lines) + if is_content(y) {
            1nat
        } else {
            0nat
        },
{
    assert(lines.push(y).drop_last() =~= lines);
}

/// The character right after the colour escape of a line's first glyph.
proof fn lemma_first_glyph(c: char, rest: Seq<char>)
    ensures
        (glyph(c) + rest).len() > dim_code().len(),
        (glyph(c) + rest)[dim_code().len() as int] == c,
{
}

proof fn lemma_runs_start(w: Seq<usize>, mid: char, fill: char)
    requires
        w.len() >= 1,
    ensures
        rule_runs(w, mid, fill).len() > dim_code().len(),
        rule_runs(w, mid, fill)[dim_code().len() as int] == fill,
    decreases w.len(),
{
    if w.len() > 1 {
        lemma_runs_start(w.drop_last(), mid, fill);
    }
}

proof fn lemma_body_counts(rows: Seq<Seq<Cell>>, w: Seq<usize>, x: Seq<char>)
    requires
        rows.len() >= 1,
        x.len() > dim_code().len() && x[dim_code().len() as int] != '│',
    ensures
        count_equal(body_lines(rows, w), x) == if x == dotted_separator(w) {
            (rows.len() - 1) as nat
        } else {
            0nat
        },
        count_content(body_lines(rows, w)) == rows.len(),
    decreases rows.len(),
{
    lemma_first_glyph('│', row_columns(rows.last(), w) + seq!['\n']);
    assert(row_line(rows.last(), w) =~= glyph('│') + (row_columns(rows.last(), w) + seq!['\n']));
    assert(row_line(rows.last(), w) != x);
    let d = dotted_separator(w);
    assert(d =~= glyph('├') + (rule_runs(w, '┼', '╌') + glyph('┤') + seq!['\n']));
    lemma_first_glyph('├', rule_runs(w, '┼', '╌') + glyph('┤') + seq!['\n']);
    let r = row_line(rows.last(), w);
    assert(is_content(r));
    assert(!is_content(d));
    if rows.len() == 1 {
        let b = body_lines(rows, w);
        assert(rows[0] == rows.last());
        assert(b == seq![r]);
        assert(b.drop_last() =~= Seq::<Seq<char>>::empty());
        assert(count_equal(b.drop_last(), x) == 0);
        assert(count_content(b.drop_last()) == 0);
        assert(count_equal(b, x) == 0);
        assert(count_content(b) == 1);
    } else {
        lemma_body_counts(rows.drop_last(), w, x);
        let prev = body_lines(rows.drop_last(), w);
        let b = body_lines(rows, w);
        assert(b == prev.push(d).push(r));
        assert(prev.push(d).drop_last() =~= prev);
        assert(prev.push(d).push(r).drop_last() =~= prev.push(d));
        assert(count_equal(b, x) == count_equal(prev.push(d), x));
        assert(count_content(b) == count_content(prev.push(d)) + 1);
        assert(count_content(prev.push(d)) == count_content(prev));
    }
}

/// A table with at least one row and one column renders exactly one top border,
/// one header separator, one bottom border, rows - 1 dotted separators, and
/// rows + 1 content lines.
pub proof fn lemma_table_line_counts(headers: Seq<Cell>, rows: Seq<Seq<Cell>>)
    requires
        rows.len() >= 1,
        headers.len() >= 1,
    ensures
        ({
            let w = column_widths(headers, rows);
            let lines = table_lines(headers, rows);
            &&& count_equal(lines, dotted_separator(w)) == rows.len() - 1
            &&& count_equal(lines, top_border(w)) == 1
            &&& count_equal(lines, header_separator(w)) == 1
            &&& count_equal(lines, bottom_border(w)) == 1
            &&& count_content(lines) == rows.len() + 1
        }),
{
    let w = column_widths(headers, rows);
    lemma_widths_bound(headers, rows);
    let top = top_border(w);
    let hdr = row_line(headers, w);
    let sep = header_separator(w);
    let dot = dotted_separator(w);
    let bot = bottom_border(w);
    lemma_runs_start(w, '┼', '─');
    lemma_runs_start(w, '┼', '╌');
    let k = dim_code().len() as int;
    assert(top =~= glyph('╭') + (rule_runs(w, '┬', '─') + glyph('╮') + seq!['\n']));
    lemma_first_glyph('╭', rule_runs(w, '┬', '─') + glyph('╮') + seq!['\n']);
    assert(hdr =~= glyph('│') + (row_columns(headers, w) + seq!['\n']));
    lemma_first_glyph('│', row_columns(headers, w) + seq!['\n']);
    assert(sep =~= glyph('├') + (rule_runs(w, '┼', '─') + glyph('┤') + seq!['\n']));
    lemma_first_glyph('├', rule_runs(w, '┼', '─') + glyph('┤') + seq!['\n']);
    assert(dot =~= glyph('├') + (rule_runs(w, '┼', '╌') + glyph('┤') + seq!['\n']));
    lemma_first_glyph('├', rule_runs(w, '┼', '╌') + glyph('┤') + seq!['\n']);
    assert(bot =~= glyph('╰') + (rule_runs(w, '┴', '─') + glyph('╯') + seq!['\n']));
    lemma_first_glyph('╰', rule_runs(w, '┴', '─') + glyph('╯') + seq!['\n']);
    let g = glyph('├').len() as int;
    assert(sep[g + k] == '─');
    assert(dot[g + k] == '╌');
    assert(sep != dot);
    let head = seq![top, hdr, sep];
    let body = body_lines(rows, w);
    let tail = seq![bot];
    lemma_body_counts(rows, w, dot);
    lemma_body_counts(rows, w, top);
    lemma_body_counts(rows, w, sep);
    lemma_body_counts(rows, w, bot);
    lemma_counts_concat(head, body, dot);
    lemma_counts_concat(head + body, tail, dot);
    lemma_counts_concat(head, body, top);
    lemma_counts_concat(head + body, tail, top);
    lemma_counts_concat(head, body, sep);
    lemma_counts_concat(head + body, tail, sep);
    lemma_counts_concat(head, body, bot);
    lemma_counts_concat(head + body, tail, bot);
    let e = Seq::<Seq<char>>::empty();
    assert(head =~= e.push(top).push(hdr).push(sep));
    assert(tail =~= e.push(bot));
    assert(top != dot && hdr != dot && top != hdr && top != sep && top != bot);
    assert(hdr != sep && hdr != bot && sep != bot);
    assert(!is_content(top) && is_content(hdr) && !is_content(sep) && !is_content(bot));
    assert forall|x: Seq<char>| #[trigger] count_equal(e, x) == 0 && count_content(e) == 0 by {}
    assert forall|x: Seq<char>|
        #[trigger] count_equal(head, x) == (if x == top { 1nat } else { 0nat }) + (if x == hdr {
            1nat
        } else {
            0nat
        }) + (if x == sep { 1nat } else { 0nat }) && count_equal(tail, x) == if x == bot {
            1nat
        } else {
            0nat
        } by {
        lemma_counts_push(e, top, x);
        lemma_counts_push(e.push(top), hdr, x);
        lemma_counts_push(e.push(top).push(hdr), sep, x);
        lemma_counts_push(e, bot, x);
    }
    assert(count_content(head) == 1 && count_content(tail) == 0) by {
        lemma_counts_push(e, top, top);
        lemma_counts_push(e.push(top), hdr, top);
        lemma_counts_push(e.push(top).push(hdr), sep, top);
        lemma_counts_push(e, bot, top);
    }
    assert(table_lines(headers, rows) == head + body + tail);
}

/// Adding a row whose cells are no wider than the columns already are keeps
/// every column width, and every line rendered before, but the bottom border,
/// comes out again unchanged at the start of the new rendering.
pub proof fn lemma_narrow_row_keeps_widths(headers: Seq<Cell>, rows: Seq<Seq<Cell>>, row: Seq<Cell>)
    requires
        forall|i: int|
            0 <= i < row.len() && i < headers.len() ==> (#[trigger] row[i]).width <= column_widths(
                headers,
                rows,
            )[i],
    ensures
        column_widths(headers, rows.push(row)) == column_widths(headers, rows),
        table_lines(headers, rows).drop_last() == table_lines(headers, rows.push(row)).take(
            table_lines(headers, rows).len() - 1,
        ),
{
    lemma_widths_bound(headers, rows);
    let w = column_widths(headers, rows);
    assert(rows.push(row).drop_last() =~= rows);
    assert(column_widths(headers, rows.push(row)) =~= w);
    let before = table_lines(headers, rows);
    let after = table_lines(headers, rows.push(row));
    let head = seq![top_border(w), row_line(headers, w), header_separator(w)];
    assert(before.drop_last() =~= head + body_lines(rows, w));
    if rows.len() == 0 {
        assert(body_lines(rows, w) =~= Seq::<Seq<char>>::empty());
        assert(after.take(before.len() - 1) =~= head);
    } else {
        assert(body_lines(rows.push(row), w) =~= body_lines(rows, w).push(dotted_separator(w)).push(
            row_line(row, w),
        ));
        assert(after.take(before.len() - 1) =~= head + body_lines(rows, w));
    }
}

/// A string of `n` copies of `c`.
fn run_of(c: char, n: usize) -> (r: String)
    ensures
        r@ == repeated(c, n as nat),
{
    let mut out = String::new();
    let mut i: usize = 0;
    while i < n
        invariant
            i <= n,
            out@ == repeated(c, i as nat),
        decreases n - i,
    {
        push_char(&mut out, c);
        i = i + 1;
        assert(out@ =~= repeated(c, i as nat));
    }
    assert(out@ =~= repeated(c, n as nat));
    out
}

/// Appends `n` copies of `c` in the border colour.
fn push_rule_run(out: &mut String, c: char, n: usize)
    ensures
        final(out)@ == old(out)@ + decorated(dim_code(), repeated(c, n as nat)),
{
    let run = run_of(c, n);
    let d = dim(run.as_str());
    out.append(d.as_str());
}

/// Appends one glyph in the border colour.
fn push_glyph(out: &mut String, c: char)
    ensures
        final(out)@ == old(out)@ + glyph(c),
{
    push_rule_run(out, c, 1);
    assert(repeated(c, 1) =~= seq![c]);
}

/// A rule line over the widths `w`.
fn rule(w: &[usize], left: char, mid: char, right: char, fill: char) -> (r: String)
    requires
        forall|i: int| 0 <= i < w@.len() ==> w@[i] + 2 <= usize::MAX,
    ensures
        r@ == rule_line(w@, left, mid, right, fill),
{
    let mut line = String::new();
    push_glyph(&mut line, left);
    let mut i: usize = 0;
    while i < w.len()
        invariant
            i <= w@.len(),
            forall|k: int| 0 <= k < w@.len() ==> w@[k] + 2 <= usize::MAX,
            line@ == glyph(left) + rule_runs(w@.take(i as int), mid, fill),
        decreases w@.len() - i,
    {
        let ghost before = line@;
        if i > 0 {
            push_glyph(&mut line, mid);
        }
        push_rule_run(&mut line, fill, w[i] + 2);
        let ghost t = w@.take(i + 1);
        assert(t.drop_last() =~= w@.take(i as int));
        if i == 0 {
            assert(rule_runs(w@.take(0), mid, fill) =~= Seq::<char>::empty());
            assert(line@ =~= glyph(left) + rule_runs(t, mid, fill));
        } else {
            assert(line@ =~= glyph(left) + rule_runs(t, mid, fill));
        }
        i = i + 1;
    }
    assert(w@.take(i as int) =~= w@);
    push_glyph(&mut line, right);
    push_char(&mut line, '\n');
    assert(line@ =~= rule_line(w@, left, mid, right, fill));
    line
}

impl Table {
    /// A table with the given column headers, shown in the header colour, and
    /// no rows.
    pub fn new(headers: Vec<&str>) -> (r: Table)
        ensures
            r.header_cells().len() == headers@.len(),
            forall|i: int|
                0 <= i < headers@.len() ==> (#[trigger] r.header_cells()[i]).text@ == decorated(
                    green_code(),
                    headers@[i]@,
                ) && r.header_cells()[i].width == headers@[i].len(),
            r.body() == Seq::<Seq<Cell>>::empty(),
    {
        let mut cells: Vec<Cell> = Vec::new();
        let mut i: usize = 0;
        while i < headers.len()
            invariant
                i <= headers@.len(),
                cells@.len() == i,
                forall|k: int|
                    0 <= k < i ==> (#[trigger] cells@[k]).text@ == decorated(green_code(), headers@[k]@)
                        && cells@[k].width == headers@[k].len(),
            decreases headers@.len() - i,
        {
            let s: &str = headers[i];
            cells.push(Cell::colored(green(s), s.len()));
            i = i + 1;
        }
        let r = Table { headers: cells, rows: Vec::new() };
        assert(r.body() =~= Seq::<Seq<Cell>>::empty());
        r
    }

    /// Appends a row below the others.
    pub fn add_row(&mut self, row: Vec<Cell>)
        ensures
            final(self).header_cells() == old(self).header_cells(),
            final(self).body() == old(self).body().push(row@),
    {
        self.rows.push(row);
        assert(self.body() =~= old(self).body().push(row@));
    }

    /// The whole table as text: borders, header, and the rows with dotted
    /// separators between them.
    pub fn render(&self) -> (r: String)
        requires
            widths_fit(self.header_cells(), self.body()),
        ensures
            r@ == rendered(self.header_cells(), self.body()),
    {
        let ghost hs = self.header_cells();
        let ghost rows = self.body();
        let widths = self.calculate_column_widths();
        let ghost w = widths@;
        proof {
            lemma_widths_bound(hs, rows);
        }
        let ghost head = seq![top_border(w), row_line(hs, w), header_separator(w)];
        let mut output = String::new();
        let top = self.render_border(widths.as_slice(), '╭', '┬', '╮');
        output.append(top.as_str());
        let header = self.render_row(self.headers.as_slice(), widths.as_slice());
        output.append(header.as_str());
        let sep = self.render_border(widths.as_slice(), '├', '┼', '┤');
        output.append(sep.as_str());
        proof {
            let e = Seq::<Seq<char>>::empty();
            lemma_joined_push(e, top_border(w));
            lemma_joined_push(e.push(top_border(w)), row_line(hs, w));
            lemma_joined_push(e.push(top_border(w)).push(row_line(hs, w)), header_separator(w));
            assert(e.push(top_border(w)).push(row_line(hs, w)).push(header_separator(w)) =~= head);
            assert(joined(e) =~= Seq::<char>::empty());
            assert(output@ =~= joined(head));
            assert(body_lines(rows.take(0), w) =~= Seq::<Seq<char>>::empty());
            assert(head + body_lines(rows.take(0), w) =~= head);
        }
        let mut i: usize = 0;
        while i < self.rows.len()
            invariant
                i <= self.rows@.len(),
                hs == self.header_cells(),
                rows == self.body(),
                w == widths@,
                w == column_widths(hs, rows),
                forall|k: int| 0 <= k < w.len() ==> w[k] + 2 <= usize::MAX,
                forall|r: int, k: int|
                    0 <= r < rows.len() && 0 <= k < rows[r].len() && k < hs.len()
                        ==> (#[trigger] rows[r][k]).width <= w[k],
                w.len() == hs.len(),
                head == seq![top_border(w), row_line(hs, w), header_separator(w)],
                output@ == joined(head + body_lines(rows.take(i as int), w)),
            decreases self.rows@.len() - i,
        {
            let ghost before = head + body_lines(rows.take(i as int), w);
            let ghost t = rows.take(i + 1);
            assert(t.drop_last() =~= rows.take(i as int));
            assert(rows[i as int] == self.rows@[i as int]@);
            if i > 0 {
                let dotted = self.render_dotted_border(widths.as_slice());
                output.append(dotted.as_str());
                proof {
                    lemma_joined_push(before, dotted_separator(w));
                }
            }
            let ghost mid = if i > 0 {
                before.push(dotted_separator(w))
            } else {
                before
            };
            assert(output@ == joined(mid));
            let line = self.render_row(self.rows[i].as_slice(), widths.as_slice());
            output.append(line.as_str());
            proof {
                lemma_joined_push(mid, row_line(rows[i as int], w));
                if i == 0 {
                    assert(body_lines(t, w) =~= seq![row_line(rows[0], w)]);
                    assert(body_lines(rows.take(0), w) =~= Seq::<Seq<char>>::empty());
                }
                assert(head + body_lines(t, w) =~= mid.push(row_line(rows[i as int], w)));
            }
            i = i + 1;
        }
        let bottom = self.render_border(widths.as_slice(), '╰', '┴', '╯');
        output.append(bottom.as_str());
        proof {
            assert(rows.take(i as int) =~= rows);
            let all = table_lines(hs, rows);
            assert(all =~= (head + body_lines(rows, w)).push(bottom_border(w)));
            lemma_joined_push(head + body_lines(rows, w), bottom_border(w));
        }
        output
    }

    /// Whether every column, with its padding, is narrow enough to render.
    pub fn fits(&self) -> (r: bool)
        ensures
            r == widths_fit(self.header_cells(), self.body()),
    {
        let widths = self.calculate_column_widths();
        let mut i: usize = 0;
        while i < widths.len()
            invariant
                i <= widths@.len(),
                widths@ == column_widths(self.header_cells(), self.body()),
                forall|k: int| 0 <= k < i ==> widths@[k] + 2 <= usize::MAX,
            decreases widths@.len() - i,
        {
            if widths[i] > usize::MAX - 2 {
                return false;
            }
            i = i + 1;
        }
        true
    }

    fn calculate_column_widths(&self) -> (r: Vec<usize>)
        ensures
            r@ == column_widths(self.header_cells(), self.body()),
    {
        let mut widths: Vec<usize> = Vec::new();
        let mut k: usize = 0;
        while k < self.headers.len()
            invariant
                k <= self.headers@.len(),
                widths@ == self.headers@.take(k as int).map_values(|c: Cell| c.width),
            decreases self.headers@.len() - k,
        {
            widths.push(self.headers[k].width);
            k = k + 1;
            assert(widths@ =~= self.headers@.take(k as int).map_values(|c: Cell| c.width));
        }
        assert(self.headers@.take(k as int) =~= self.headers@);
        let mut r: usize = 0;
        assert(self.body().take(0) =~= Seq::<Seq<Cell>>::empty());
        while r < self.rows.len()
            invariant
                r <= self.rows@.len(),
                widths@ == column_widths(self.header_cells(), self.body().take(r as int)),
            decreases self.rows@.len() - r,
        {
            let row = &self.rows[r];
            let ghost before = widths@;
            let mut i: usize = 0;
            while i < row.len()
                invariant
                    i <= row@.len(),
                    row == self.rows@[r as int],
                    widths@.len() == before.len(),
                    forall|j: int|
                        0 <= j < before.len() ==> #[trigger] widths@[j] == if j < i
                            && j < row@.len() && row@[j].width > before[j] {
                            row@[j].width
                        } else {
                            before[j]
                        },
                decreases row@.len() - i,
            {
                if i < widths.len() && row[i].width > widths[i] {
                    widths.set(i, row[i].width);
                }
                i = i + 1;
            }
            let ghost t = self.body().take(r + 1);
            assert(t.drop_last() =~= self.body().take(r as int));
            assert(t.last() == row@);
            assert(widths@ =~= widen(before, row@));
            r = r + 1;
        }
        assert(self.body().take(r as int) =~= self.body());
        widths
    }

    fn render_border(&self, widths: &[usize], left: char, mid: char, right: char) -> (r: String)
        requires
            forall|i: int| 0 <= i < widths@.len() ==> widths@[i] + 2 <= usize::MAX,
        ensures
            r@ == rule_line(widths@, left, mid, right, '─'),
    {
        rule(widths, left, mid, right, '─')
    }

    fn render_dotted_border(&self, widths: &[usize]) -> (r: String)
        requires
            forall|i: int| 0 <= i < widths@.len() ==> widths@[i] + 2 <= usize::MAX,
        ensures
            r@ == dotted_separator(widths@),
    {
        rule(widths, '├', '┼', '┤', '╌')
    }

    fn render_row(&self, cells: &[Cell], widths: &[usize]) -> (r: String)
        requires
            forall|i: int| 0 <= i < cells@.len() && i < widths@.len() ==> cells@[i].width <= widths@[i],
        ensures
            r@ == row_line(cells@, widths@),
    {
        let mut line = String::new();
        push_glyph(&mut line, '│');
        let mut i: usize = 0;
        while i < widths.len()
            invariant
                i <= widths@.len(),
                forall|k: int| 0 <= k < cells@.len() && k < widths@.len() ==> cells@[k].width <= widths@[k],
                line@ == glyph('│') + row_columns(cells@, widths@.take(i as int)),
            decreases widths@.len() - i,
        {
            push_char(&mut line, ' ');
            let cell_w: usize = if i < cells.len() {
                line.append(cells[i].text.as_str());
                cells[i].width
            } else {
                0
            };
            let pad = run_of(' ', widths[i] - cell_w);
            line.append(pad.as_str());
            push_char(&mut line, ' ');
            push_glyph(&mut line, '│');
            let ghost t = widths@.take(i + 1);
            assert(t.drop_last() =~= widths@.take(i as int));
            assert(line@ =~= glyph('│') + row_columns(cells@, t));
            i = i + 1;
        }
        assert(widths@.take(i as int) =~= widths@);
        push_char(&mut line, '\n');
        line
    }
}

} // verus!
