//! Fixed-width text: a header line and one line per row, every column as
//! wide as its widest value and closed by one space.

use vstd::prelude::*;
use vstd::seq_lib::*;
use vstd::string::*;

verus! {

/// Why a table cannot be laid out.
#[derive(Debug, PartialEq, Eq)]
pub enum TableError {
    /// The row at this index, the first such, has another number of fields
    /// than there are columns.
    RaggedRow { row: usize },
}

/// Every row has one field for each column.
pub open spec fn rectangular(headers: Seq<Seq<char>>, rows: Seq<Seq<Seq<char>>>) -> bool {
    forall|i: int| 0 <= i < rows.len() ==> (#[trigger] rows[i]).len() == headers.len()
}

/// The length of the longest value of column `j`, its header included.
pub open spec fn column_width(headers: Seq<Seq<char>>, rows: Seq<Seq<Seq<char>>>, j: int) -> nat
    decreases rows.len(),
{
    if rows.len() == 0 {
        headers[j].len()
    } else {
        let above = column_width(headers, rows.drop_last(), j);
        let here = rows.last()[j].len();
        if here > above {
            here
        } else {
            above
        }
    }
}

/// The widths of all columns.
pub open spec fn column_widths(headers: Seq<Seq<char>>, rows: Seq<Seq<Seq<char>>>) -> Seq<nat> {
    Seq::new(headers.len(), |j: int| column_width(headers, rows, j))
}

/// `n` spaces.
pub open spec fn spaces(n: nat) -> Seq<char> {
    Seq::new(n, |i: int| ' ')
}

/// A value filled up with spaces to the width of its column, and the space
/// that closes the column.
pub open spec fn padded(cell: Seq<char>, width: nat) -> Seq<char> {
    cell + spaces((width - cell.len()) as nat) + seq![' ']
}

/// The values of one line, each one padded.
pub open spec fn padded_cells(cells: Seq<Seq<char>>, widths: Seq<nat>) -> Seq<Seq<char>> {
    Seq::new(cells.len(), |j: int| padded(cells[j], widths[j]))
}

/// One line of the table: the padded values and a line feed.
pub open spec fn table_line(cells: Seq<Seq<char>>, widths: Seq<nat>) -> Seq<char> {
    padded_cells(cells, widths).flatten() + seq!['\n']
}

/// The lines of `rows`, one after the other.
pub open spec fn table_body(rows: Seq<Seq<Seq<char>>>, widths: Seq<nat>) -> Seq<char> {
    rows.flat_map(|cells: Seq<Seq<char>>| table_line(cells, widths))
}

/// The fixed-width text of a table: the header line, then the line of each
/// row, all laid out to the same column widths.
pub open spec fn table_text(headers: Seq<Seq<char>>, rows: Seq<Seq<Seq<char>>>) -> Seq<char> {
    let widths = column_widths(headers, rows);
    table_line(headers, widths) + table_body(rows, widths)
}

/// A value is no longer than its column is wide.
pub proof fn lemma_column_width_covers(
    headers: Seq<Seq<char>>,
    rows: Seq<Seq<Seq<char>>>,
    j: int,
    i: int,
)
    requires
        0 <= i < rows.len(),
    ensures
        rows[i][j].len() <= column_width(headers, rows, j),
        headers[j].len() <= column_width(headers, rows, j),
    decreases rows.len(),
{
    if i < rows.len() - 1 {
        lemma_column_width_covers(headers, rows.drop_last(), j, i);
    } else if rows.len() > 1 {
        lemma_column_width_covers(headers, rows.drop_last(), j, 0);
    }
}

fn first_ragged_row(columns: usize, rows: &Vec<Vec<String>>) -> (found: Option<usize>)
    ensures
        match found {
            Some(row) => row < rows@.len() && rows@[row as int]@.len() != columns && forall|i: int|
                0 <= i < row ==> (#[trigger] rows@[i])@.len() == columns,
            None => forall|i: int| 0 <= i < rows@.len() ==> (#[trigger] rows@[i])@.len() == columns,
        },
{
    let mut i: usize = 0;
    while i < rows.len()
        invariant
            i <= rows@.len(),
            forall|k: int| 0 <= k < i ==> (#[trigger] rows@[k])@.len() == columns,
        decreases rows@.len() - i,
    {
        if rows[i].len() != columns {
            return Some(i);
        }
        i += 1;
    }
    None
}

fn measure_columns(headers: &Vec<String>, rows: &Vec<Vec<String>>) -> (widths: Vec<usize>)
    requires
        rectangular(headers.deep_view(), rows.deep_view()),
    ensures
        widths@.len() == headers@.len(),
        forall|j: int|
            0 <= j < widths@.len() ==> (#[trigger] widths@[j]) as nat == column_width(
                headers.deep_view(),
                rows.deep_view(),
                j,
            ),
{
    let ghost hs = headers.deep_view();
    let ghost rs = rows.deep_view();
    let mut widths: Vec<usize> = Vec::new();
    let mut j: usize = 0;
    while j < headers.len()
        invariant
            j <= headers@.len(),
            hs == headers.deep_view(),
            rs == rows.deep_view(),
            rectangular(hs, rs),
            widths@.len() == j,
            forall|k: int| 0 <= k < j ==> (#[trigger] widths@[k]) as nat == column_width(hs, rs, k),
        decreases headers@.len() - j,
    {
        let mut width: usize = headers[j].as_str().unicode_len();
        let mut i: usize = 0;
        proof {
            assert(rs.take(0) =~= Seq::<Seq<Seq<char>>>::empty());
            assert(hs[j as int] == headers@[j as int]@);
        }
        while i < rows.len()
            invariant
                i <= rows@.len(),
                j < headers@.len(),
                hs == headers.deep_view(),
                rs == rows.deep_view(),
                rectangular(hs, rs),
                width as nat == column_width(hs, rs.take(i as int), j as int),
            decreases rows@.len() - i,
        {
            proof {
                assert(rs[i as int].len() == hs.len());
                assert(rs[i as int] == rows@[i as int].deep_view());
                assert(rs[i as int][j as int] == rows@[i as int]@[j as int]@);
                assert(rs.take(i + 1).drop_last() =~= rs.take(i as int));
                assert(rs.take(i + 1).last() == rs[i as int]);
            }
            let here: usize = rows[i][j].as_str().unicode_len();
            if here > width {
                width = here;
            }
            i += 1;
        }
        proof {
            assert(rs.take(i as int) =~= rs);
        }
        widths.push(width);
        j += 1;
    }
    widths
}

fn push_line(out: &mut String, cells: &Vec<String>, widths: &Vec<usize>, Ghost(layout): Ghost<Seq<nat>>)
    requires
        cells@.len() == widths@.len(),
        layout.len() == widths@.len(),
        forall|j: int| 0 <= j < widths@.len() ==> (#[trigger] widths@[j]) as nat == layout[j],
        forall|j: int| 0 <= j < cells@.len() ==> (#[trigger] cells@[j])@.len() <= layout[j],
    ensures
        final(out)@ == old(out)@ + table_line(cells.deep_view(), layout),
{
    let ghost texts = cells.deep_view();
    let ghost parts = padded_cells(texts, layout);
    let mut j: usize = 0;
    proof {
        reveal_strlit(" ");
        reveal_strlit("\n");
        assert(parts.take(0) =~= Seq::<Seq<char>>::empty());
        assert(Seq::<Seq<char>>::empty().flatten() =~= Seq::<char>::empty());
        assert(out@ =~= old(out)@ + parts.take(0).flatten());
    }
    while j < cells.len()
        invariant
            j <= cells@.len(),
            cells@.len() == widths@.len(),
            layout.len() == widths@.len(),
            texts == cells.deep_view(),
            parts == padded_cells(texts, layout),
            forall|k: int| 0 <= k < widths@.len() ==> (#[trigger] widths@[k]) as nat == layout[k],
            forall|k: int| 0 <= k < cells@.len() ==> (#[trigger] cells@[k])@.len() <= layout[k],
            out@ == old(out)@ + parts.take(j as int).flatten(),
            " "@ == seq![' '],
        decreases cells@.len() - j,
    {
        let ghost before = out@;
        let cell: &str = cells[j].as_str();
        let length: usize = cell.unicode_len();
        out.append(cell);
        let mut filled: usize = length;
        while filled < widths[j]
            invariant
                j < cells@.len(),
                cells@.len() == widths@.len(),
                length <= filled <= widths@[j as int],
                out@ == before + cell@ + spaces((filled - length) as nat),
                " "@ == seq![' '],
            decreases widths@[j as int] - filled,
        {
            out.append(" ");
            proof {
                assert(spaces((filled - length) as nat) + seq![' '] =~= spaces(
                    (filled + 1 - length) as nat,
                ));
            }
            filled += 1;
        }
        out.append(" ");
        proof {
            assert(texts[j as int] == cell@);
            assert(parts[j as int] == padded(cell@, layout[j as int]));
            assert(out@ =~= before + parts[j as int]);
            assert(parts.take(j + 1) =~= parts.take(j as int).push(parts[j as int]));
            parts.take(j as int).lemma_flatten_push(parts[j as int]);
        }
        j += 1;
    }
    out.append("\n");
    proof {
        assert(parts.take(j as int) =~= parts);
        assert("\n"@ =~= seq!['\n']);
    }
}

/// Lays out a table as fixed-width text. A row with another number of
/// fields than there are columns is refused, the first one by its index.
pub fn render_table(headers: &Vec<String>, rows: &Vec<Vec<String>>) -> (out: Result<
    String,
    TableError,
>)
    ensures
        match out {
            Ok(text) => rectangular(headers.deep_view(), rows.deep_view()) && text@ == table_text(
                headers.deep_view(),
                rows.deep_view(),
            ),
            Err(TableError::RaggedRow { row }) => row < rows@.len() && rows@[row as int]@.len()
                != headers@.len() && forall|i: int|
                0 <= i < row ==> (#[trigger] rows@[i])@.len() == headers@.len(),
        },
{
    let ghost hs = headers.deep_view();
    let ghost rs = rows.deep_view();
    match first_ragged_row(headers.len(), rows) {
        Some(row) => {
            return Err(TableError::RaggedRow { row });
        },
        None => {},
    }
    proof {
        assert forall|i: int| 0 <= i < rs.len() implies (#[trigger] rs[i]).len() == hs.len() by {
            assert(rs[i] == rows@[i].deep_view());
        }
    }
    let widths = measure_columns(headers, rows);
    let ghost layout = column_widths(hs, rs);
    let ghost line = |cells: Seq<Seq<char>>| table_line(cells, layout);
    let mut text: String = String::new();
    proof {
        assert forall|j: int| 0 <= j < headers@.len() implies (#[trigger] headers@[j])@.len()
            <= layout[j] by {
            assert(hs[j] == headers@[j]@);
            lemma_header_fits(hs, rs, j);
        }
    }
    push_line(&mut text, headers, &widths, Ghost(layout));
    let mut i: usize = 0;
    proof {
        assert(rs.take(0) =~= Seq::<Seq<Seq<char>>>::empty());
        assert(Seq::<Seq<Seq<char>>>::empty().flat_map(line) =~= Seq::<char>::empty());
        assert(text@ =~= table_line(hs, layout) + rs.take(0).flat_map(line));
    }
    while i < rows.len()
        invariant
            i <= rows@.len(),
            hs == headers.deep_view(),
            rs == rows.deep_view(),
            rectangular(hs, rs),
            layout == column_widths(hs, rs),
            line == (|cells: Seq<Seq<char>>| table_line(cells, layout)),
            widths@.len() == headers@.len(),
            forall|j: int| 0 <= j < widths@.len() ==> (#[trigger] widths@[j]) as nat == layout[j],
            text@ == table_line(hs, layout) + rs.take(i as int).flat_map(line),
        decreases rows@.len() - i,
    {
        proof {
            assert(rs[i as int] == rows@[i as int].deep_view());
            assert(rs[i as int].len() == hs.len());
            assert forall|j: int| 0 <= j < rows@[i as int]@.len() implies (
            #[trigger] rows@[i as int]@[j])@.len() <= layout[j] by {
                assert(rs[i as int][j] == rows@[i as int]@[j]@);
                lemma_column_width_covers(hs, rs, j, i as int);
            }
            rs.lemma_flat_map_take_append(line, i as int);
        }
        push_line(&mut text, &rows[i], &widths, Ghost(layout));
        proof {
            assert(text@ =~= table_line(hs, layout) + rs.take(i + 1).flat_map(line));
        }
        i += 1;
    }
    proof {
        assert(rs.take(i as int) =~= rs);
    }
    Ok(text)
}

pub proof fn lemma_header_fits(headers: Seq<Seq<char>>, rows: Seq<Seq<Seq<char>>>, j: int)
    ensures
        headers[j].len() <= column_width(headers, rows, j),
    decreases rows.len(),
{
    if rows.len() > 0 {
        lemma_header_fits(headers, rows.drop_last(), j);
    }
}

} // verus!
