//! Reading fixed-width text back: the lines of a text, the columns that its
//! header line marks, and the value of each column in each line.

use crate::table::{
    column_widths, lemma_column_width_covers, lemma_header_fits, padded,
    padded_cells, rectangular, spaces, table_body, table_line, table_text,
};
use crate::text::chars_of;
use vstd::prelude::*;
use vstd::seq_lib::*;
use vstd::string::*;

verus! {

/// The number of characters before the first line feed of `text`: all of
/// them where it has none.
pub open spec fn first_line_end(text: Seq<char>) -> nat
    decreases text.len(),
{
    if text.len() == 0 || text[0] == '\n' {
        0
    } else {
        1 + first_line_end(text.drop_first())
    }
}

/// The lines of `text`: what stands before each line feed, and what stands
/// after the last one unless that is nothing.
pub open spec fn lines_of(text: Seq<char>) -> Seq<Seq<char>>
    decreases text.len(),
{
    if text.len() == 0 {
        Seq::empty()
    } else {
        let end = first_line_end(text) as int;
        if end < text.len() {
            seq![text.take(end)] + lines_of(text.skip(end + 1))
        } else {
            seq![text]
        }
    }
}

/// A column starts at `p`: a character that is no space, at the start of
/// the line or after a space.
pub open spec fn starts_column(line: Seq<char>, p: int) -> bool {
    &&& 0 <= p < line.len()
    &&& line[p] != ' '
    &&& (p == 0 || line[p - 1] == ' ')
}

/// The places before `n` at which a column starts, in ascending order.
pub open spec fn column_starts_before(line: Seq<char>, n: int) -> Seq<int>
    decreases n,
{
    if n <= 0 {
        Seq::empty()
    } else if starts_column(line, n - 1) {
        column_starts_before(line, n - 1).push(n - 1)
    } else {
        column_starts_before(line, n - 1)
    }
}

/// The places at which the columns of a header line start.
pub open spec fn column_starts(line: Seq<char>) -> Seq<int> {
    column_starts_before(line, line.len() as int)
}

/// `s` without the spaces at its end.
pub open spec fn trimmed(s: Seq<char>) -> Seq<char>
    decreases s.len(),
{
    if s.len() > 0 && s.last() == ' ' {
        trimmed(s.drop_last())
    } else {
        s
    }
}

/// `p`, or the nearest place within a line of length `len`.
pub open spec fn clipped(p: int, len: int) -> int {
    if p < 0 {
        0
    } else if p > len {
        len
    } else {
        p
    }
}

/// Where column `j` ends: at the start of the next column, or with the line.
pub open spec fn column_end(line: Seq<char>, starts: Seq<int>, j: int) -> int {
    if j + 1 < starts.len() {
        starts[j + 1]
    } else {
        line.len() as int
    }
}

/// The value of column `j` in `line`: what stands between the start of the
/// column and its end, without the spaces that fill it up.
pub open spec fn cell_at(line: Seq<char>, starts: Seq<int>, j: int) -> Seq<char> {
    let from = clipped(starts[j], line.len() as int);
    let to = clipped(column_end(line, starts, j), line.len() as int);
    if from <= to {
        trimmed(line.subrange(from, to))
    } else {
        Seq::empty()
    }
}

/// The values of all columns in `line`.
pub open spec fn cells_of(line: Seq<char>, starts: Seq<int>) -> Seq<Seq<char>> {
    Seq::new(starts.len(), |j: int| cell_at(line, starts, j))
}

/// The values of all columns in each of `lines`.
pub open spec fn rows_of(lines: Seq<Seq<char>>, starts: Seq<int>) -> Seq<Seq<Seq<char>>> {
    Seq::new(lines.len(), |i: int| cells_of(lines[i], starts))
}

/// What fixed-width text holds: the column names of its first line, and
/// under the columns that this line marks the values of every other line.
/// A text without a line holds nothing.
pub open spec fn table_read(text: Seq<char>) -> Option<(Seq<Seq<char>>, Seq<Seq<Seq<char>>>)> {
    let lines = lines_of(text);
    if lines.len() == 0 {
        None
    } else {
        let starts = column_starts(lines[0]);
        Some((cells_of(lines[0], starts), rows_of(lines.skip(1), starts)))
    }
}

/// `s` holds no line feed.
pub open spec fn one_line(s: Seq<char>) -> bool {
    forall|i: int| 0 <= i < s.len() ==> s[i] != '\n'
}

/// `s` can name a column: it is not empty and holds no space and no line
/// feed.
pub open spec fn names_column(s: Seq<char>) -> bool {
    &&& s.len() > 0
    &&& forall|i: int| 0 <= i < s.len() ==> s[i] != ' ' && s[i] != '\n'
}

/// `s` can be told from its padding: it holds no line feed and does not end
/// in a space.
pub open spec fn survives_padding(s: Seq<char>) -> bool {
    &&& one_line(s)
    &&& s.len() > 0 ==> s.last() != ' '
}

/// A table that fixed-width text gives back as it was: every header can
/// name a column, every row has a value for each column, and every value
/// can be told from its padding.
pub open spec fn readable_table(headers: Seq<Seq<char>>, rows: Seq<Seq<Seq<char>>>) -> bool {
    &&& forall|j: int| 0 <= j < headers.len() ==> names_column(#[trigger] headers[j])
    &&& rectangular(headers, rows)
    &&& forall|i: int, j: int|
        0 <= i < rows.len() && 0 <= j < rows[i].len() ==> survives_padding(#[trigger] rows[i][j])
}

/// Where column `j` starts in a line laid out to `widths`.
pub open spec fn column_offset(widths: Seq<nat>, j: int) -> int
    decreases j,
{
    if j <= 0 {
        0
    } else {
        column_offset(widths, j - 1) + widths[j - 1] + 1
    }
}

/// The starts of all columns of a line laid out to `widths`.
pub open spec fn column_offsets(widths: Seq<nat>) -> Seq<int> {
    Seq::new(widths.len(), |j: int| column_offset(widths, j))
}

/// The values of `cells` fit the columns of `widths`.
pub open spec fn fits(cells: Seq<Seq<char>>, widths: Seq<nat>) -> bool {
    &&& cells.len() == widths.len()
    &&& forall|j: int| 0 <= j < cells.len() ==> (#[trigger] cells[j]).len() <= widths[j]
}

/// A line of the table without its line feed.
pub open spec fn line_body(cells: Seq<Seq<char>>, widths: Seq<nat>) -> Seq<char> {
    padded_cells(cells, widths).flatten()
}

proof fn lemma_line_ends_at_feed(body: Seq<char>, rest: Seq<char>)
    requires
        one_line(body),
    ensures
        first_line_end(body + seq!['\n'] + rest) == body.len(),
    decreases body.len(),
{
    let text = body + seq!['\n'] + rest;
    if body.len() == 0 {
        assert(text[0] == '\n');
    } else {
        assert(text[0] == body[0]);
        assert(text.drop_first() =~= body.drop_first() + seq!['\n'] + rest);
        assert(one_line(body.drop_first())) by {
            assert forall|i: int| 0 <= i < body.drop_first().len() implies body.drop_first()[i]
                != '\n' by {
                assert(body.drop_first()[i] == body[i + 1]);
            }
        }
        lemma_line_ends_at_feed(body.drop_first(), rest);
    }
}

/// A text that begins with a line and its line feed has that line first,
/// and then the lines of what follows.
pub proof fn lemma_lines_of_line_then_rest(body: Seq<char>, rest: Seq<char>)
    requires
        one_line(body),
    ensures
        lines_of(body + seq!['\n'] + rest) == seq![body] + lines_of(rest),
{
    let text = body + seq!['\n'] + rest;
    lemma_line_ends_at_feed(body, rest);
    assert(text.take(body.len() as int) =~= body);
    assert(text.skip(body.len() as int + 1) =~= rest);
}

proof fn lemma_column_offsets(cells: Seq<Seq<char>>, widths: Seq<nat>, j: int)
    requires
        fits(cells, widths),
        0 <= j <= cells.len(),
    ensures
        padded_cells(cells, widths).take(j).flatten().len() == column_offset(widths, j),
        0 <= column_offset(widths, j),
    decreases j,
{
    let parts = padded_cells(cells, widths);
    if j == 0 {
        assert(parts.take(0) =~= Seq::<Seq<char>>::empty());
    } else {
        lemma_column_offsets(cells, widths, j - 1);
        assert(parts.take(j) =~= parts.take(j - 1).push(parts[j - 1]));
        parts.take(j - 1).lemma_flatten_push(parts[j - 1]);
        assert(parts[j - 1].len() == widths[j - 1] + 1);
    }
}

/// In a line laid out to `widths`, column `j` holds its value, padded,
/// from its offset to the offset of the next column.
pub proof fn lemma_line_column(cells: Seq<Seq<char>>, widths: Seq<nat>, j: int)
    requires
        fits(cells, widths),
        0 <= j < cells.len(),
    ensures
        line_body(cells, widths).len() == column_offset(widths, cells.len() as int),
        0 <= column_offset(widths, j),
        column_offset(widths, j + 1) == column_offset(widths, j) + widths[j] + 1,
        column_offset(widths, j + 1) <= line_body(cells, widths).len(),
        line_body(cells, widths).subrange(column_offset(widths, j), column_offset(widths, j + 1))
            == padded(cells[j], widths[j]),
{
    let parts = padded_cells(cells, widths);
    let n = cells.len() as int;
    lemma_column_offsets(cells, widths, j);
    lemma_column_offsets(cells, widths, j + 1);
    lemma_column_offsets(cells, widths, n);
    assert(parts.take(n) =~= parts);
    let before = parts.take(j);
    let here = seq![parts[j]];
    let after = parts.skip(j + 1);
    assert(parts =~= before + here + after);
    lemma_flatten_concat(before + here, after);
    lemma_flatten_concat(before, here);
    here.lemma_flatten_singleton();
    assert(here.flatten() == parts[j]);
    assert(parts.take(j + 1) =~= before + here);
    assert(parts.flatten() == before.flatten() + parts[j] + after.flatten());
    assert(parts[j].len() == widths[j] + 1);
    assert(parts.flatten().subrange(column_offset(widths, j), column_offset(widths, j + 1))
        =~= parts[j]);
}

proof fn lemma_line_body_is_one_line(cells: Seq<Seq<char>>, widths: Seq<nat>)
    requires
        fits(cells, widths),
        forall|j: int| 0 <= j < cells.len() ==> one_line(#[trigger] cells[j]),
    ensures
        one_line(line_body(cells, widths)),
{
    let body = line_body(cells, widths);
    let n = cells.len() as int;
    if n > 0 {
        lemma_line_column(cells, widths, 0);
    } else {
        assert(padded_cells(cells, widths) =~= Seq::<Seq<char>>::empty());
    }
    assert forall|p: int| 0 <= p < body.len() implies body[p] != '\n' by {
        let j = lemma_column_of_place(widths, n, p);
        lemma_line_column(cells, widths, j);
        let from = column_offset(widths, j);
        let part = body.subrange(from, column_offset(widths, j + 1));
        assert(body[p] == part[p - from]);
        let cell = cells[j];
        assert(one_line(cell));
        if p - from < cell.len() {
            assert(part[p - from] == cell[p - from]);
        } else {
            assert(part[p - from] == ' ');
        }
    }
}

proof fn lemma_column_of_place(widths: Seq<nat>, n: int, p: int) -> (j: int)
    requires
        0 <= n <= widths.len(),
        0 <= p < column_offset(widths, n),
    ensures
        0 <= j < n,
        column_offset(widths, j) <= p < column_offset(widths, j + 1),
    decreases n,
{
    if p >= column_offset(widths, n - 1) {
        n - 1
    } else {
        lemma_column_of_place(widths, n - 1, p)
    }
}

proof fn lemma_offsets_ascend(widths: Seq<nat>, j: int, k: int)
    requires
        0 <= j <= k,
    ensures
        column_offset(widths, j) <= column_offset(widths, k),
        j < k ==> column_offset(widths, j) < column_offset(widths, k),
    decreases k,
{
    if j < k {
        lemma_offsets_ascend(widths, j, k - 1);
    }
}

proof fn lemma_trimmed_padding(cell: Seq<char>, n: nat)
    requires
        cell.len() > 0 ==> cell.last() != ' ',
    ensures
        trimmed(cell + spaces(n)) == cell,
    decreases n,
{
    let s = cell + spaces(n);
    if n == 0 {
        assert(s =~= cell);
    } else {
        assert(s.last() == ' ');
        assert(s.drop_last() =~= cell + spaces((n - 1) as nat));
        lemma_trimmed_padding(cell, (n - 1) as nat);
    }
}

/// A line laid out to `widths` gives back its values when it is read at the
/// offsets of the columns.
pub proof fn lemma_cells_of_line(cells: Seq<Seq<char>>, widths: Seq<nat>)
    requires
        fits(cells, widths),
        forall|j: int| 0 <= j < cells.len() ==> survives_padding(#[trigger] cells[j]),
    ensures
        cells_of(line_body(cells, widths), column_offsets(widths)) == cells,
{
    let body = line_body(cells, widths);
    let starts = column_offsets(widths);
    let n = cells.len() as int;
    assert forall|j: int| 0 <= j < n implies cell_at(body, starts, j) == cells[j] by {
        lemma_line_column(cells, widths, j);
        lemma_offsets_ascend(widths, j + 1, n);
        let from = column_offset(widths, j);
        let to = column_offset(widths, j + 1);
        assert(column_end(body, starts, j) == to);
        assert(clipped(starts[j], body.len() as int) == from);
        assert(clipped(to, body.len() as int) == to);
        let fill = (widths[j] - cells[j].len()) as nat;
        assert(padded(cells[j], widths[j]) =~= cells[j] + spaces(fill + 1));
        assert(survives_padding(cells[j]));
        lemma_trimmed_padding(cells[j], fill + 1);
    }
    assert(cells_of(body, starts) =~= cells);
}

proof fn lemma_starts_within_column(
    cells: Seq<Seq<char>>,
    widths: Seq<nat>,
    j: int,
    t: int,
)
    requires
        fits(cells, widths),
        0 <= j < cells.len(),
        forall|k: int| 0 <= k < cells.len() ==> names_column(#[trigger] cells[k]),
        1 <= t <= widths[j] + 1,
        column_starts_before(line_body(cells, widths), column_offset(widths, j))
            == column_offsets(widths).take(j),
    ensures
        column_starts_before(line_body(cells, widths), column_offset(widths, j) + t)
            == column_offsets(widths).take(j + 1),
    decreases t,
{
    let body = line_body(cells, widths);
    let from = column_offset(widths, j);
    let offsets = column_offsets(widths);
    lemma_line_column(cells, widths, j);
    let part = body.subrange(from, column_offset(widths, j + 1));
    let cell = cells[j];
    assert(names_column(cell));
    assert(offsets.take(j + 1) =~= offsets.take(j).push(from));
    if t == 1 {
        assert(body[from] == part[0]);
        assert(part[0] == cell[0]);
        if j > 0 {
            lemma_line_column(cells, widths, j - 1);
            let earlier = body.subrange(column_offset(widths, j - 1), from);
            assert(body[from - 1] == earlier[widths[j - 1] as int]);
            assert(names_column(cells[j - 1]));
            assert(earlier[widths[j - 1] as int] == ' ');
        }
        assert(starts_column(body, from));
    } else {
        lemma_starts_within_column(cells, widths, j, t - 1);
        let p = from + t - 1;
        assert(body[p] == part[t - 1]);
        assert(body[p - 1] == part[t - 2]);
        if t - 1 < cell.len() {
            assert(part[t - 2] == cell[t - 2]);
        } else {
            assert(part[t - 1] == ' ');
        }
        assert(!starts_column(body, p));
    }
}

proof fn lemma_starts_before_column(cells: Seq<Seq<char>>, widths: Seq<nat>, j: int)
    requires
        fits(cells, widths),
        0 <= j <= cells.len(),
        forall|k: int| 0 <= k < cells.len() ==> names_column(#[trigger] cells[k]),
    ensures
        column_starts_before(line_body(cells, widths), column_offset(widths, j))
            == column_offsets(widths).take(j),
    decreases j,
{
    if j == 0 {
        assert(column_offsets(widths).take(0) =~= Seq::<int>::empty());
    } else {
        lemma_starts_before_column(cells, widths, j - 1);
        lemma_line_column(cells, widths, j - 1);
        lemma_starts_within_column(cells, widths, j - 1, widths[j - 1] as int + 1);
    }
}

/// The header line of a table marks each column at its offset.
pub proof fn lemma_header_marks_columns(headers: Seq<Seq<char>>, widths: Seq<nat>)
    requires
        fits(headers, widths),
        forall|k: int| 0 <= k < headers.len() ==> names_column(#[trigger] headers[k]),
    ensures
        column_starts(line_body(headers, widths)) == column_offsets(widths),
{
    let n = headers.len() as int;
    lemma_starts_before_column(headers, widths, n);
    lemma_column_offsets(headers, widths, n);
    assert(padded_cells(headers, widths).take(n) =~= padded_cells(headers, widths));
    assert(column_offsets(widths).take(n) =~= column_offsets(widths));
}

proof fn lemma_lines_of_body(rows: Seq<Seq<Seq<char>>>, widths: Seq<nat>)
    requires
        forall|i: int| 0 <= i < rows.len() ==> fits(#[trigger] rows[i], widths),
        forall|i: int, j: int|
            0 <= i < rows.len() && 0 <= j < rows[i].len() ==> one_line(#[trigger] rows[i][j]),
    ensures
        lines_of(table_body(rows, widths)) == Seq::new(
            rows.len(),
            |i: int| line_body(rows[i], widths),
        ),
    decreases rows.len(),
{
    let line = |cells: Seq<Seq<char>>| table_line(cells, widths);
    let wanted = Seq::new(rows.len(), |i: int| line_body(rows[i], widths));
    if rows.len() == 0 {
        assert(rows.map_values(line) =~= Seq::<Seq<char>>::empty());
        assert(table_body(rows, widths) =~= Seq::<char>::empty());
        assert(lines_of(table_body(rows, widths)) =~= wanted);
    } else {
        let rest = rows.drop_first();
        lemma_lines_of_body(rest, widths);
        assert(rows.map_values(line).drop_first() =~= rest.map_values(line));
        assert(rows.map_values(line).first() == table_line(rows[0], widths));
        assert(table_body(rows, widths) == table_line(rows[0], widths) + table_body(rest, widths));
        assert(fits(rows[0], widths));
        assert forall|j: int| 0 <= j < rows[0].len() implies one_line(#[trigger] rows[0][j]) by {}
        lemma_line_body_is_one_line(rows[0], widths);
        lemma_lines_of_line_then_rest(line_body(rows[0], widths), table_body(rest, widths));
        assert(table_line(rows[0], widths) + table_body(rest, widths) =~= line_body(rows[0], widths)
            + seq!['\n'] + table_body(rest, widths));
        assert(seq![line_body(rows[0], widths)] + Seq::new(
            rest.len(),
            |i: int| line_body(rest[i], widths),
        ) =~= wanted);
    }
}

/// Reading the fixed-width text of a table gives back its column names and
/// every value of every row, as they were.
pub proof fn lemma_table_reads_back(headers: Seq<Seq<char>>, rows: Seq<Seq<Seq<char>>>)
    requires
        readable_table(headers, rows),
    ensures
        table_read(table_text(headers, rows)) == Some((headers, rows)),
{
    let widths = column_widths(headers, rows);
    let text = table_text(headers, rows);
    let head = line_body(headers, widths);
    let offsets = column_offsets(widths);
    assert(fits(headers, widths)) by {
        assert forall|j: int| 0 <= j < headers.len() implies (#[trigger] headers[j]).len()
            <= widths[j] by {
            lemma_header_fits(headers, rows, j);
        }
    }
    assert forall|i: int| 0 <= i < rows.len() implies fits(#[trigger] rows[i], widths) by {
        assert forall|j: int| 0 <= j < rows[i].len() implies (#[trigger] rows[i][j]).len()
            <= widths[j] by {
            lemma_column_width_covers(headers, rows, j, i);
        }
    }
    assert forall|j: int| 0 <= j < headers.len() implies one_line(#[trigger] headers[j]) by {
        assert(names_column(headers[j]));
    }
    assert forall|i: int, j: int| 0 <= i < rows.len() && 0 <= j < rows[i].len() implies one_line(
        #[trigger] rows[i][j],
    ) by {
        assert(survives_padding(rows[i][j]));
    }
    lemma_line_body_is_one_line(headers, widths);
    lemma_lines_of_body(rows, widths);
    lemma_lines_of_line_then_rest(head, table_body(rows, widths));
    assert(text =~= head + seq!['\n'] + table_body(rows, widths));
    let bodies = Seq::new(rows.len(), |i: int| line_body(rows[i], widths));
    let lines = lines_of(text);
    assert(lines == seq![head] + bodies);
    assert(lines[0] == head);
    assert(lines.skip(1) =~= bodies);
    lemma_header_marks_columns(headers, widths);
    assert forall|j: int| 0 <= j < headers.len() implies survives_padding(#[trigger] headers[j]) by {
        assert(names_column(headers[j]));
    }
    lemma_cells_of_line(headers, widths);
    assert forall|i: int| 0 <= i < rows.len() implies cells_of(bodies[i], offsets) == rows[i] by {
        assert(fits(rows[i], widths));
        assert forall|j: int| 0 <= j < rows[i].len() implies survives_padding(
            #[trigger] rows[i][j],
        ) by {}
        lemma_cells_of_line(rows[i], widths);
    }
    assert(rows_of(bodies, offsets) =~= rows);
}

/// What was read from fixed-width text.
pub struct Table {
    /// The names of the columns.
    pub headers: Vec<String>,
    /// The values of each line after the first, column by column.
    pub rows: Vec<Vec<String>>,
}

/// Places as integers.
pub open spec fn places(starts: Seq<usize>) -> Seq<int> {
    Seq::new(starts.len(), |j: int| starts[j] as int)
}

proof fn lemma_first_line_end_is(text: Seq<char>, k: int)
    requires
        0 <= k <= text.len(),
        forall|i: int| 0 <= i < k ==> text[i] != '\n',
        k == text.len() || text[k] == '\n',
    ensures
        first_line_end(text) == k,
    decreases k,
{
    if k > 0 {
        let rest = text.drop_first();
        assert forall|i: int| 0 <= i < k - 1 implies rest[i] != '\n' by {
            assert(rest[i] == text[i + 1]);
        }
        if k < text.len() {
            assert(rest[k - 1] == text[k]);
        }
        lemma_first_line_end_is(rest, k - 1);
    }
}

fn line_ranges(chars: &Vec<char>) -> (ranges: Vec<(usize, usize)>)
    ensures
        ranges@.len() == lines_of(chars@).len(),
        forall|k: int|
            0 <= k < ranges@.len() ==> (#[trigger] ranges@[k]).0 <= ranges@[k].1 <= chars@.len()
                && chars@.subrange(ranges@[k].0 as int, ranges@[k].1 as int) == lines_of(chars@)[k],
{
    let ghost text = chars@;
    let ghost mut found: Seq<Seq<char>> = Seq::empty();
    let mut ranges: Vec<(usize, usize)> = Vec::new();
    let mut pos: usize = 0;
    proof {
        assert(text.skip(0) =~= text);
    }
    while pos < chars.len()
        invariant
            pos <= chars@.len(),
            text == chars@,
            found.len() == ranges@.len(),
            lines_of(text) == found + lines_of(text.skip(pos as int)),
            forall|k: int|
                0 <= k < ranges@.len() ==> (#[trigger] ranges@[k]).0 <= ranges@[k].1 <= chars@.len()
                    && text.subrange(ranges@[k].0 as int, ranges@[k].1 as int) == found[k],
        decreases chars@.len() - pos,
    {
        let mut end: usize = pos;
        while end < chars.len() && chars[end] != '\n'
            invariant
                pos <= end <= chars@.len(),
                forall|i: int| pos <= i < end ==> chars@[i] != '\n',
            decreases chars@.len() - end,
        {
            end += 1;
        }
        let ghost rest = text.skip(pos as int);
        proof {
            assert forall|i: int| 0 <= i < end - pos implies rest[i] != '\n' by {
                assert(rest[i] == text[pos + i]);
            }
            if end < chars@.len() {
                assert(rest[end - pos] == text[end as int]);
            }
            lemma_first_line_end_is(rest, end - pos);
            if end < chars@.len() {
                assert(rest.take(end - pos) =~= text.subrange(pos as int, end as int));
                assert(rest.skip(end - pos + 1) =~= text.skip(end + 1));
            } else {
                assert(rest =~= text.subrange(pos as int, end as int));
                assert(lines_of(text.skip(end as int)) =~= Seq::<Seq<char>>::empty());
            }
            found = found.push(text.subrange(pos as int, end as int));
        }
        ranges.push((pos, end));
        if end < chars.len() {
            pos = end + 1;
        } else {
            pos = end;
        }
        proof {
            assert(lines_of(text) =~= found + lines_of(text.skip(pos as int)));
        }
    }
    proof {
        assert(lines_of(text.skip(pos as int)) =~= Seq::<Seq<char>>::empty());
        assert(lines_of(text) =~= found);
    }
    ranges
}

fn header_columns(chars: &Vec<char>, from: usize, to: usize) -> (starts: Vec<usize>)
    requires
        from <= to <= chars@.len(),
    ensures
        places(starts@) == column_starts(chars@.subrange(from as int, to as int)),
{
    let ghost line = chars@.subrange(from as int, to as int);
    let mut starts: Vec<usize> = Vec::new();
    let mut p: usize = 0;
    proof {
        assert(places(starts@) =~= column_starts_before(line, 0));
    }
    while p < to - from
        invariant
            from <= to <= chars@.len(),
            p <= to - from,
            line == chars@.subrange(from as int, to as int),
            places(starts@) == column_starts_before(line, p as int),
        decreases to - from - p,
    {
        let ghost before = places(starts@);
        proof {
            assert(line[p as int] == chars@[from + p]);
            if p > 0 {
                assert(line[p - 1] == chars@[from + p - 1]);
            }
        }
        if chars[from + p] != ' ' && (p == 0 || chars[from + p - 1] == ' ') {
            starts.push(p);
            proof {
                assert(places(starts@) =~= before.push(p as int));
            }
        }
        p += 1;
    }
    starts
}

fn clip(p: usize, len: usize) -> (r: usize)
    ensures
        r as int == clipped(p as int, len as int),
{
    if p > len {
        len
    } else {
        p
    }
}

fn line_cells(text: &str, chars: &Vec<char>, from: usize, to: usize, starts: &Vec<usize>) -> (cells:
    Vec<String>)
    requires
        text@ == chars@,
        from <= to <= chars@.len(),
    ensures
        cells.deep_view() == cells_of(chars@.subrange(from as int, to as int), places(starts@)),
{
    let ghost line = chars@.subrange(from as int, to as int);
    let ghost marks = places(starts@);
    let length: usize = to - from;
    let mut cells: Vec<String> = Vec::new();
    let mut j: usize = 0;
    while j < starts.len()
        invariant
            j <= starts@.len(),
            text@ == chars@,
            from <= to <= chars@.len(),
            length == to - from,
            line == chars@.subrange(from as int, to as int),
            marks == places(starts@),
            cells@.len() == j,
            forall|k: int| 0 <= k < j ==> (#[trigger] cells@[k])@ == cell_at(line, marks, k),
        decreases starts@.len() - j,
    {
        let first: usize = clip(starts[j], length);
        let last: usize = if j + 1 < starts.len() {
            clip(starts[j + 1], length)
        } else {
            length
        };
        proof {
            assert(marks[j as int] == starts@[j as int]);
            if j + 1 < starts@.len() {
                assert(marks[j + 1] == starts@[j + 1]);
            }
            assert(last as int == clipped(column_end(line, marks, j as int), line.len() as int));
        }
        if first <= last {
            let mut end: usize = last;
            while end > first && chars[from + end - 1] == ' '
                invariant
                    first <= end <= last <= length,
                    length == to - from,
                    from <= to <= chars@.len(),
                    line == chars@.subrange(from as int, to as int),
                    trimmed(line.subrange(first as int, last as int)) == trimmed(
                        line.subrange(first as int, end as int),
                    ),
                decreases end,
            {
                proof {
                    let s = line.subrange(first as int, end as int);
                    assert(s.last() == chars@[from + end - 1]);
                    assert(s.drop_last() =~= line.subrange(first as int, end - 1));
                }
                end -= 1;
            }
            proof {
                let s = line.subrange(first as int, end as int);
                if end > first {
                    assert(s.last() == chars@[from + end - 1]);
                }
                assert(trimmed(s) == s);
                assert(text@.subrange(from + first, from + end) =~= s);
            }
            let cell = text.substring_char(from + first, from + end).to_owned();
            cells.push(cell);
        } else {
            cells.push(String::new());
        }
        j += 1;
    }
    proof {
        assert(cells.deep_view() =~= cells_of(line, marks));
    }
    cells
}

/// Reads fixed-width text: the column names of its first line, and under
/// the columns that this line marks the values of every other line; `None`
/// for a text without a line.
pub fn read_table(text: &str) -> (out: Option<Table>)
    ensures
        match out {
            Some(table) => table_read(text@) == Some(
                (table.headers.deep_view(), table.rows.deep_view()),
            ),
            None => table_read(text@) is None,
        },
{
    let chars = chars_of(text);
    let ranges = line_ranges(&chars);
    if ranges.len() == 0 {
        return None;
    }
    let ghost lines = lines_of(text@);
    let head = ranges[0];
    let starts = header_columns(&chars, head.0, head.1);
    let ghost marks = column_starts(lines[0]);
    let headers = line_cells(text, &chars, head.0, head.1, &starts);
    let mut rows: Vec<Vec<String>> = Vec::new();
    let mut i: usize = 1;
    while i < ranges.len()
        invariant
            1 <= i <= ranges@.len(),
            text@ == chars@,
            lines == lines_of(text@),
            ranges@.len() == lines.len(),
            marks == places(starts@),
            forall|k: int|
                0 <= k < ranges@.len() ==> (#[trigger] ranges@[k]).0 <= ranges@[k].1 <= chars@.len()
                    && chars@.subrange(ranges@[k].0 as int, ranges@[k].1 as int) == lines[k],
            rows@.len() == i - 1,
            forall|k: int|
                0 <= k < i - 1 ==> (#[trigger] rows@[k]).deep_view() == cells_of(lines[k + 1], marks),
        decreases ranges@.len() - i,
    {
        let range = ranges[i];
        let cells = line_cells(text, &chars, range.0, range.1, &starts);
        rows.push(cells);
        i += 1;
    }
    proof {
        assert(rows.deep_view() =~= rows_of(lines.skip(1), marks));
    }
    Some(Table { headers, rows })
}

} // verus!
