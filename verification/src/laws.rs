//! What holds of every array and every rendering, proved from the
//! definitions of the texts.

use crate::display_method::common::{
    array_cell_texts, array_shapes, blocks_text, boundaries_at, breaks_after, column_widths,
    first_mismatch, line_text, mismatch_text, multi_text, row_text, single_piece, single_prefix,
    single_text,
};
use crate::display_method::formatter::ElementFormatter;
use crate::display_method::{CommaSeparated, Joined, Separated};
use crate::shape::{
    chunk_size, extent_product, lemma_chunks_nest, lemma_positive_product, lemma_product_ends,
    lemma_product_step, row_size,
};
use crate::text::{
    column_width, decimal, lemma_column_width_is_max, newlines, pad_left, shape_text, spaces,
};
use crate::text_array::TextArray;
use vstd::arithmetic::div_mod::{lemma_fundamental_div_mod, lemma_fundamental_div_mod_converse};
use vstd::prelude::*;

verus! {

/// Aligned fields have one width, that of the longest text: the column width
/// of `cells` is the length in characters of a cell that no other cell
/// exceeds, and every cell is padded to exactly that width. So `Separated`
/// and `CommaSeparated` write fields of equal width, followed by a separator
/// of one or of two characters wherever the row goes on.
pub proof fn lemma_fields_have_column_width(cells: Seq<Seq<char>>, i: int)
    requires
        0 <= i < cells.len(),
    ensures
        exists|j: int| 0 <= j < cells.len() && (#[trigger] cells[j]).len() == column_width(cells),
        forall|j: int| 0 <= j < cells.len() ==> (#[trigger] cells[j]).len() <= column_width(cells),
        pad_left(cells[i], column_width(cells)).len() == column_width(cells),
        Separated.element_text(cells[i], column_width(cells), true).len() == column_width(cells),
        Separated.element_text(cells[i], column_width(cells), false).len() == column_width(cells)
            + 1,
        CommaSeparated.element_text(cells[i], column_width(cells), true).len() == column_width(
            cells,
        ),
        CommaSeparated.element_text(cells[i], column_width(cells), false).len() == column_width(
            cells,
        ) + 2,
{
    lemma_column_width_is_max(cells);
    assert(cells[i].len() <= column_width(cells));
}

/// The first `count` cells, each right-aligned to `width`, with `sep`
/// between each two of them.
pub open spec fn fields_joined(
    cells: Seq<Seq<char>>,
    width: nat,
    sep: Seq<char>,
    count: int,
) -> Seq<char>
    decreases count,
{
    if count <= 0 {
        Seq::empty()
    } else if count == 1 {
        pad_left(cells[0], width)
    } else {
        fields_joined(cells, width, sep, count - 1) + sep + pad_left(cells[count - 1], width)
    }
}

/// Whether `text` holds no line break.
pub open spec fn on_one_line(text: Seq<char>) -> bool {
    forall|i: int| 0 <= i < text.len() ==> text[i] != '\n'
}

proof fn lemma_single_prefix_of_one_axis<F: ElementFormatter>(
    fmt: F,
    shape: Seq<usize>,
    cells: Seq<Seq<char>>,
    width: nat,
    count: int,
)
    requires
        shape.len() == 1,
        shape[0] == cells.len(),
        0 <= count <= cells.len(),
    ensures
        single_prefix(fmt, shape, cells, width, count) == row_text(
            fmt,
            cells,
            width,
            0,
            cells.len() as int,
            count,
        ),
    decreases count,
{
    if count > 0 {
        lemma_single_prefix_of_one_axis(fmt, shape, cells, width, count - 1);
        let n = cells.len() as int;
        assert(row_size(shape) == n);
        assert((count % n == 0) == (count == n)) by (nonlinear_arith)
            requires
                0 < count <= n,
        ;
        assert(breaks_after(shape, cells.len(), count - 1) == 0);
        assert(newlines(0) =~= Seq::<char>::empty());
        assert(single_piece(fmt, shape, cells, width, count - 1) =~= fmt.element_text(
            cells[count - 1],
            width,
            count == n,
        ));
    }
}

/// An array of one axis is one row: the single-array renderer writes its
/// elements one after the other, the last of them as the end of the row, and
/// no line break.
pub proof fn lemma_one_axis_is_one_row<F: ElementFormatter>(
    fmt: F,
    shape: Seq<usize>,
    cells: Seq<Seq<char>>,
)
    requires
        shape.len() == 1,
        shape[0] == cells.len(),
    ensures
        single_text(fmt, shape, cells) == row_text(
            fmt,
            cells,
            column_width(cells),
            0,
            cells.len() as int,
            cells.len() as int,
        ),
{
    lemma_single_prefix_of_one_axis(fmt, shape, cells, column_width(cells), cells.len() as int);
}

proof fn lemma_separated_row(cells: Seq<Seq<char>>, width: nat, count: int)
    requires
        1 <= count <= cells.len(),
    ensures
        row_text(Separated, cells, width, 0, cells.len() as int, count) == fields_joined(
            cells,
            width,
            spaces(1),
            count,
        ) + if count < cells.len() {
            spaces(1)
        } else {
            Seq::empty()
        },
    decreases count,
{
    let n = cells.len() as int;
    let none = Seq::<char>::empty();
    if count == 1 {
        assert(row_text(Separated, cells, width, 0, n, 0) =~= none);
        assert(row_text(Separated, cells, width, 0, n, 1) =~= Separated.element_text(
            cells[0],
            width,
            1 == n,
        ));
        assert(pad_left(cells[0], width) + none =~= pad_left(cells[0], width));
    } else {
        lemma_separated_row(cells, width, count - 1);
        let before = fields_joined(cells, width, spaces(1), count - 1);
        let field = pad_left(cells[count - 1], width);
        assert(row_text(Separated, cells, width, 0, n, count) == (before + spaces(1))
            + Separated.element_text(cells[count - 1], width, count == n));
        if count < n {
            assert((before + spaces(1)) + (field + spaces(1)) =~= (before + spaces(1) + field)
                + spaces(1));
        } else {
            assert((before + spaces(1)) + field =~= (before + spaces(1) + field) + none);
        }
    }
}

proof fn lemma_comma_separated_row(cells: Seq<Seq<char>>, width: nat, count: int)
    requires
        1 <= count <= cells.len(),
    ensures
        row_text(CommaSeparated, cells, width, 0, cells.len() as int, count) == fields_joined(
            cells,
            width,
            seq![',', ' '],
            count,
        ) + if count < cells.len() {
            seq![',', ' ']
        } else {
            Seq::empty()
        },
    decreases count,
{
    let n = cells.len() as int;
    let none = Seq::<char>::empty();
    let sep = seq![',', ' '];
    if count == 1 {
        assert(row_text(CommaSeparated, cells, width, 0, n, 0) =~= none);
        assert(row_text(CommaSeparated, cells, width, 0, n, 1) =~= CommaSeparated.element_text(
            cells[0],
            width,
            1 == n,
        ));
        assert(pad_left(cells[0], width) + none =~= pad_left(cells[0], width));
    } else {
        lemma_comma_separated_row(cells, width, count - 1);
        let before = fields_joined(cells, width, sep, count - 1);
        let field = pad_left(cells[count - 1], width);
        assert(row_text(CommaSeparated, cells, width, 0, n, count) == (before + sep)
            + CommaSeparated.element_text(cells[count - 1], width, count == n));
        if count < n {
            assert((before + sep) + (field + sep) =~= (before + sep + field) + sep);
        } else {
            assert((before + sep) + field =~= (before + sep + field) + none);
        }
    }
}

proof fn lemma_fields_joined_len(cells: Seq<Seq<char>>, sep: Seq<char>, count: int)
    requires
        1 <= count <= cells.len(),
    ensures
        fields_joined(cells, column_width(cells), sep, count).len() == count * column_width(
            cells,
        ) + (count - 1) * sep.len(),
    decreases count,
{
    let w = column_width(cells);
    lemma_fields_have_column_width(cells, count - 1);
    if count > 1 {
        lemma_fields_joined_len(cells, sep, count - 1);
        assert((count - 1) * w + (count - 2) * sep.len() + sep.len() + w == count * w + (count
            - 1) * sep.len()) by (nonlinear_arith);
    } else {
        assert(1 * w + 0 * sep.len() == w) by (nonlinear_arith);
    }
}

proof fn lemma_fields_joined_on_one_line(
    cells: Seq<Seq<char>>,
    width: nat,
    sep: Seq<char>,
    count: int,
)
    requires
        0 <= count <= cells.len(),
        forall|i: int| 0 <= i < cells.len() ==> on_one_line(#[trigger] cells[i]),
        on_one_line(sep),
    ensures
        on_one_line(fields_joined(cells, width, sep, count)),
    decreases count,
{
    if count > 0 {
        assert(on_one_line(cells[count - 1]));
        assert(on_one_line(pad_left(cells[count - 1], width)));
        if count > 1 {
            lemma_fields_joined_on_one_line(cells, width, sep, count - 1);
        }
    }
}

/// The elements of an array of one axis, written by `Separated` or by
/// `CommaSeparated`, are its aligned fields with exactly one separator
/// between each two: a space, or a comma and a space. An array of `n > 0`
/// elements so takes `n` column widths and `n - 1` separators, and its text
/// holds no line break unless an element does.
pub proof fn lemma_one_axis_separated(shape: Seq<usize>, cells: Seq<Seq<char>>)
    requires
        shape.len() == 1,
        shape[0] == cells.len(),
    ensures
        single_text(Separated, shape, cells) == fields_joined(
            cells,
            column_width(cells),
            spaces(1),
            cells.len() as int,
        ),
        single_text(CommaSeparated, shape, cells) == fields_joined(
            cells,
            column_width(cells),
            seq![',', ' '],
            cells.len() as int,
        ),
        cells.len() > 0 ==> single_text(Separated, shape, cells).len() == cells.len()
            * column_width(cells) + (cells.len() - 1),
        cells.len() > 0 ==> single_text(CommaSeparated, shape, cells).len() == cells.len()
            * column_width(cells) + (cells.len() - 1) * 2,
        (forall|i: int| 0 <= i < cells.len() ==> on_one_line(#[trigger] cells[i])) ==> on_one_line(
            single_text(Separated, shape, cells),
        ) && on_one_line(single_text(CommaSeparated, shape, cells)),
{
    let n = cells.len() as int;
    let w = column_width(cells);
    let none = Seq::<char>::empty();
    lemma_one_axis_is_one_row(Separated, shape, cells);
    lemma_one_axis_is_one_row(CommaSeparated, shape, cells);
    if n > 0 {
        lemma_separated_row(cells, w, n);
        lemma_comma_separated_row(cells, w, n);
        assert(fields_joined(cells, w, spaces(1), n) + none =~= fields_joined(
            cells,
            w,
            spaces(1),
            n,
        ));
        assert(fields_joined(cells, w, seq![',', ' '], n) + none =~= fields_joined(
            cells,
            w,
            seq![',', ' '],
            n,
        ));
        lemma_fields_joined_len(cells, spaces(1), n);
        lemma_fields_joined_len(cells, seq![',', ' '], n);
        assert((n - 1) * 1 == n - 1);
    }
    if forall|i: int| 0 <= i < cells.len() ==> on_one_line(#[trigger] cells[i]) {
        lemma_fields_joined_on_one_line(cells, w, spaces(1), n);
        lemma_fields_joined_on_one_line(cells, w, seq![',', ' '], n);
    }
}

/// The first `count` rows of `len` elements each, every row as
/// [`row_text`] writes it, with one line break between each two rows.
pub open spec fn rows_text<F: ElementFormatter>(
    fmt: F,
    cells: Seq<Seq<char>>,
    width: nat,
    len: int,
    count: int,
) -> Seq<char>
    decreases count,
{
    if count <= 0 {
        Seq::empty()
    } else if count == 1 {
        row_text(fmt, cells, width, 0, len, len)
    } else {
        rows_text(fmt, cells, width, len, count - 1) + newlines(1) + row_text(
            fmt,
            cells,
            width,
            (count - 1) * len,
            len,
            len,
        )
    }
}

/// What the single-array renderer has written of an array of two axes after
/// `rows` whole rows and `extra` elements of the next row.
spec fn rows_begun<F: ElementFormatter>(
    fmt: F,
    cells: Seq<Seq<char>>,
    width: nat,
    len: int,
    rows: int,
    extra: int,
) -> Seq<char> {
    if rows <= 0 {
        row_text(fmt, cells, width, 0, len, extra)
    } else if rows * len < cells.len() {
        rows_text(fmt, cells, width, len, rows) + newlines(1) + row_text(
            fmt,
            cells,
            width,
            rows * len,
            len,
            extra,
        )
    } else {
        rows_text(fmt, cells, width, len, rows)
    }
}

proof fn lemma_single_prefix_of_two_axes<F: ElementFormatter>(
    fmt: F,
    shape: Seq<usize>,
    cells: Seq<Seq<char>>,
    width: nat,
    rows: int,
    extra: int,
)
    requires
        shape.len() == 2,
        cells.len() == shape[0] * shape[1],
        0 <= rows,
        0 <= extra < shape[1],
        rows * shape[1] + extra <= cells.len(),
    ensures
        single_prefix(fmt, shape, cells, width, rows * shape[1] + extra) == rows_begun(
            fmt,
            cells,
            width,
            shape[1] as int,
            rows,
            extra,
        ),
    decreases rows, extra,
{
    let len = shape[1] as int;
    let total = cells.len() as int;
    let count = rows * len + extra;
    let none = Seq::<char>::empty();
    assert(shape.skip(1) =~= seq![shape[1]]);
    assert(seq![shape[1]].drop_first() =~= Seq::<usize>::empty());
    assert(chunk_size(shape, 0) == len) by {
        reveal_with_fuel(extent_product, 2);
        assert(len * 1 == len);
    }
    assert(row_size(shape) == len);
    if rows == 0 && extra == 0 {
        assert(count == 0) by (nonlinear_arith)
            requires
                count == rows * len + extra,
                rows == 0,
                extra == 0,
        ;
    } else if extra > 0 {
        // one more element of the row that was begun
        lemma_single_prefix_of_two_axes(fmt, shape, cells, width, rows, extra - 1);
        lemma_fundamental_div_mod_converse(count, len, rows, extra);
        assert(rows * len < total) by (nonlinear_arith)
            requires
                rows * len + extra <= total,
                extra > 0,
        ;
        assert(boundaries_at(shape, count, 1) == 0) by {
            assert(boundaries_at(shape, count, 0) == 0);
        }
        assert(breaks_after(shape, cells.len(), count - 1) == 0);
        assert(newlines(0) =~= none);
        let element = fmt.element_text(cells[count - 1], width, false);
        assert(single_piece(fmt, shape, cells, width, count - 1) =~= element);
        assert(row_text(fmt, cells, width, rows * len, len, extra) == row_text(
            fmt,
            cells,
            width,
            rows * len,
            len,
            extra - 1,
        ) + element);
        let before = rows_begun(fmt, cells, width, len, rows, extra - 1);
        if rows <= 0 {
            assert(rows * len == 0) by (nonlinear_arith)
                requires
                    rows == 0,
            ;
        } else {
            let head = rows_text(fmt, cells, width, len, rows) + newlines(1);
            assert((head + row_text(fmt, cells, width, rows * len, len, extra - 1)) + element
                =~= head + (row_text(fmt, cells, width, rows * len, len, extra - 1) + element));
        }
    } else {
        // the last element of a row
        let last = len - 1;
        assert((rows - 1) * len + last == count - 1) by (nonlinear_arith)
            requires
                count == rows * len + 0,
                last == len - 1,
        ;
        lemma_single_prefix_of_two_axes(fmt, shape, cells, width, rows - 1, last);
        lemma_fundamental_div_mod_converse(count, len, rows, 0);
        assert((rows - 1) * len < total) by (nonlinear_arith)
            requires
                rows * len + 0 <= total,
                len > 0,
        ;
        assert(boundaries_at(shape, count, 1) == 1) by {
            assert(boundaries_at(shape, count, 0) == 0);
        }
        let element = fmt.element_text(cells[count - 1], width, true);
        let row = row_text(fmt, cells, width, (rows - 1) * len, len, len);
        assert(row == row_text(fmt, cells, width, (rows - 1) * len, len, last) + element);
        let breaks = newlines(breaks_after(shape, cells.len(), count - 1));
        assert(single_piece(fmt, shape, cells, width, count - 1) == element + breaks);
        let written = rows_text(fmt, cells, width, len, rows);
        if rows - 1 <= 0 {
            assert((rows - 1) * len == 0) by (nonlinear_arith)
                requires
                    rows == 1,
            ;
            assert(written == row);
            assert(row_text(fmt, cells, width, 0, len, last) + (element + breaks) =~= row
                + breaks);
        } else {
            let head = rows_text(fmt, cells, width, len, rows - 1) + newlines(1);
            assert(written == head + row);
            assert((head + row_text(fmt, cells, width, (rows - 1) * len, len, last)) + (element
                + breaks) =~= (head + row) + breaks);
        }
        assert(single_prefix(fmt, shape, cells, width, count) =~= written + breaks);
        if count < total {
            assert(row_text(fmt, cells, width, rows * len, len, 0) =~= none);
            assert(breaks =~= newlines(1));
            assert(written + newlines(1) + none =~= written + newlines(1));
        } else {
            assert(breaks =~= none);
            assert(written + none =~= written);
        }
    }
}

/// An array of two axes that holds an element at all is written row by row:
/// each row as one line, with one line break between each two rows and none
/// after the last.
pub proof fn lemma_two_axes_are_rows<F: ElementFormatter>(
    fmt: F,
    shape: Seq<usize>,
    cells: Seq<Seq<char>>,
)
    requires
        shape.len() == 2,
        cells.len() == extent_product(shape),
        cells.len() > 0,
    ensures
        single_text(fmt, shape, cells) == rows_text(
            fmt,
            cells,
            column_width(cells),
            shape[1] as int,
            shape[0] as int,
        ),
{
    let rows = shape[0] as int;
    let len = shape[1] as int;
    lemma_product_step(shape, 0);
    lemma_product_step(shape, 1);
    lemma_product_ends(shape);
    assert(extent_product(shape) == rows * len) by (nonlinear_arith)
        requires
            extent_product(shape) == rows * extent_product(shape.skip(1)),
            extent_product(shape.skip(1)) == len * 1,
    ;
    assert(len > 0 && rows > 0) by (nonlinear_arith)
        requires
            rows * len > 0,
            rows >= 0,
            len >= 0,
    ;
    lemma_single_prefix_of_two_axes(fmt, shape, cells, column_width(cells), rows, 0);
}

/// How often `c` occurs in `text`.
pub open spec fn occurrences(text: Seq<char>, c: char) -> nat
    decreases text.len(),
{
    if text.len() == 0 {
        0
    } else if text.last() == c {
        occurrences(text.drop_last(), c) + 1
    } else {
        occurrences(text.drop_last(), c)
    }
}

/// Number of line breaks that the single-array renderer writes after the
/// first `count` elements of an array of `total` elements.
pub open spec fn breaks_written(shape: Seq<usize>, total: nat, count: int) -> nat
    decreases count,
{
    if count <= 0 {
        0
    } else {
        breaks_written(shape, total, count - 1) + breaks_after(shape, total, count - 1)
    }
}

/// Number of chunk ends inside an array of `total` elements, over the first
/// `axes` axes: each of these axes has `total / chunk_size` chunks, and all
/// but the last of them end inside the array.
pub open spec fn inner_chunk_ends(shape: Seq<usize>, total: nat, axes: int) -> int
    decreases axes,
{
    if axes <= 0 {
        0
    } else {
        inner_chunk_ends(shape, total, axes - 1) + (total as int) / (chunk_size(
            shape,
            axes - 1,
        ) as int) - 1
    }
}

/// Sum over the first `axes` axes of how many chunks of the axis fit into
/// `count` elements.
spec fn whole_chunks(shape: Seq<usize>, count: int, axes: int) -> int
    decreases axes,
{
    if axes <= 0 {
        0
    } else {
        whole_chunks(shape, count, axes - 1) + count / (chunk_size(shape, axes - 1) as int)
    }
}

/// Sum over the positions up to `count` of the chunk ends at each position.
spec fn boundaries_upto(shape: Seq<usize>, count: int, axes: int) -> nat
    decreases count,
{
    if count <= 0 {
        0
    } else {
        boundaries_upto(shape, count - 1, axes) + boundaries_at(shape, count, axes)
    }
}

proof fn lemma_occurrences_concat(a: Seq<char>, b: Seq<char>, c: char)
    ensures
        occurrences(a + b, c) == occurrences(a, c) + occurrences(b, c),
    decreases b.len(),
{
    if b.len() == 0 {
        assert(a + b =~= a);
    } else {
        lemma_occurrences_concat(a, b.drop_last(), c);
        assert((a + b).drop_last() =~= a + b.drop_last());
        assert((a + b).last() == b.last());
    }
}

proof fn lemma_occurrences_newlines(n: nat)
    ensures
        occurrences(newlines(n), '\n') == n,
    decreases n,
{
    if n > 0 {
        lemma_occurrences_newlines((n - 1) as nat);
        assert(newlines(n).drop_last() =~= newlines((n - 1) as nat));
    }
}

/// One more element completes one more chunk of size `c` exactly when the
/// new count is a multiple of `c`.
proof fn lemma_quotient_step(n: int, c: int)
    requires
        0 <= n,
        0 < c,
    ensures
        (n + 1) / c == n / c + if (n + 1) % c == 0 {
            1int
        } else {
            0int
        },
{
    let q = n / c;
    let r = n % c;
    lemma_fundamental_div_mod(n, c);
    assert(0 <= r < c) by (nonlinear_arith)
        requires
            r == n % c,
            0 < c,
    ;
    if r + 1 < c {
        assert(n + 1 == q * c + (r + 1)) by (nonlinear_arith)
            requires
                n == c * q + r,
        ;
        lemma_fundamental_div_mod_converse(n + 1, c, q, r + 1);
    } else {
        assert(n + 1 == (q + 1) * c + 0) by (nonlinear_arith)
            requires
                n == c * q + r,
                r + 1 == c,
        ;
        lemma_fundamental_div_mod_converse(n + 1, c, q + 1, 0);
    }
}

proof fn lemma_whole_chunks_step(shape: Seq<usize>, n: int, axes: int)
    requires
        0 <= n,
        0 <= axes < shape.len(),
        extent_product(shape) > 0,
    ensures
        whole_chunks(shape, n + 1, axes) == whole_chunks(shape, n, axes) + boundaries_at(
            shape,
            n + 1,
            axes,
        ),
    decreases axes,
{
    if axes > 0 {
        lemma_whole_chunks_step(shape, n, axes - 1);
        lemma_positive_product(shape, axes);
        lemma_quotient_step(n, chunk_size(shape, axes - 1) as int);
    }
}

proof fn lemma_boundaries_are_whole_chunks(shape: Seq<usize>, n: int, axes: int)
    requires
        0 <= n,
        0 <= axes < shape.len(),
        extent_product(shape) > 0,
    ensures
        boundaries_upto(shape, n, axes) == whole_chunks(shape, n, axes),
    decreases n,
{
    if n > 0 {
        lemma_boundaries_are_whole_chunks(shape, n - 1, axes);
        lemma_whole_chunks_step(shape, n - 1, axes);
    } else {
        lemma_whole_chunks_of_nothing(shape, axes);
    }
}

proof fn lemma_whole_chunks_of_nothing(shape: Seq<usize>, axes: int)
    requires
        0 <= axes < shape.len(),
        extent_product(shape) > 0,
    ensures
        whole_chunks(shape, 0, axes) == 0,
    decreases axes,
{
    if axes > 0 {
        lemma_whole_chunks_of_nothing(shape, axes - 1);
        lemma_positive_product(shape, axes);
        let c = chunk_size(shape, axes - 1) as int;
        assert(0int / c == 0) by (nonlinear_arith)
            requires
                c > 0,
        ;
    }
}

proof fn lemma_all_but_last_chunk(shape: Seq<usize>, axes: int)
    requires
        0 <= axes < shape.len(),
        extent_product(shape) > 0,
    ensures
        whole_chunks(shape, extent_product(shape) - 1, axes) == inner_chunk_ends(
            shape,
            extent_product(shape),
            axes,
        ),
    decreases axes,
{
    if axes > 0 {
        lemma_all_but_last_chunk(shape, axes - 1);
        lemma_product_ends(shape);
        lemma_chunks_nest(shape, 0, axes);
        let total = extent_product(shape) as int;
        let c = chunk_size(shape, axes - 1) as int;
        lemma_quotient_step(total - 1, c);
    }
}

proof fn lemma_breaks_written_are_boundaries(shape: Seq<usize>, total: nat, count: int)
    requires
        shape.len() >= 1,
        0 <= count < total,
    ensures
        breaks_written(shape, total, count) == boundaries_upto(shape, count, shape.len() - 1),
    decreases count,
{
    if count > 0 {
        lemma_breaks_written_are_boundaries(shape, total, count - 1);
    }
}

/// The single-array renderer writes one line break for every chunk that ends
/// inside the array: over all elements of an array of a non-empty shape,
/// the line breaks written are, summed over the axes but the innermost, the
/// number of chunks of the axis less one.
pub proof fn lemma_breaks_are_inner_chunk_ends(shape: Seq<usize>)
    requires
        shape.len() >= 1,
        extent_product(shape) > 0,
    ensures
        breaks_written(shape, extent_product(shape), extent_product(shape) as int)
            == inner_chunk_ends(shape, extent_product(shape), shape.len() - 1),
{
    let total = extent_product(shape);
    lemma_breaks_written_are_boundaries(shape, total, total - 1);
    lemma_boundaries_are_whole_chunks(shape, total - 1, shape.len() - 1);
    lemma_all_but_last_chunk(shape, shape.len() - 1);
    assert(breaks_after(shape, total, total - 1) == 0);
}

proof fn lemma_single_prefix_breaks<F: ElementFormatter>(
    fmt: F,
    shape: Seq<usize>,
    cells: Seq<Seq<char>>,
    width: nat,
    count: int,
)
    requires
        0 <= count <= cells.len(),
        forall|i: int, last: bool|
            0 <= i < cells.len() ==> on_one_line(
                #[trigger] fmt.element_text(cells[i], width, last),
            ),
    ensures
        occurrences(single_prefix(fmt, shape, cells, width, count), '\n') == breaks_written(
            shape,
            cells.len(),
            count,
        ),
    decreases count,
{
    if count > 0 {
        lemma_single_prefix_breaks(fmt, shape, cells, width, count - 1);
        let pos = count - 1;
        let ends_row = (pos + 1) % (row_size(shape) as int) == 0;
        let element = fmt.element_text(cells[pos], width, ends_row);
        let breaks = newlines(breaks_after(shape, cells.len(), pos));
        lemma_on_one_line_has_no_break(element);
        lemma_occurrences_newlines(breaks_after(shape, cells.len(), pos));
        lemma_occurrences_concat(element, breaks, '\n');
        lemma_occurrences_concat(
            single_prefix(fmt, shape, cells, width, count - 1),
            element + breaks,
            '\n',
        );
    }
}

proof fn lemma_on_one_line_has_no_break(text: Seq<char>)
    requires
        on_one_line(text),
    ensures
        occurrences(text, '\n') == 0,
    decreases text.len(),
{
    if text.len() > 0 {
        lemma_on_one_line_has_no_break(text.drop_last());
    }
}

/// The line breaks in the text of one array under `Joined`, whose elements
/// hold none themselves, are as many as chunks end inside the array: summed
/// over the axes but the innermost, the number of chunks of the axis less
/// one. For two axes that is the number of rows less one.
pub proof fn lemma_joined_line_breaks(shape: Seq<usize>, cells: Seq<Seq<char>>)
    requires
        shape.len() >= 1,
        cells.len() == extent_product(shape),
        cells.len() > 0,
        forall|i: int| 0 <= i < cells.len() ==> on_one_line(#[trigger] cells[i]),
    ensures
        occurrences(single_text(Joined, shape, cells), '\n') == inner_chunk_ends(
            shape,
            cells.len(),
            shape.len() - 1,
        ),
        shape.len() == 2 ==> occurrences(single_text(Joined, shape, cells), '\n') == cells.len()
            / row_size(shape) - 1,
{
    lemma_single_prefix_breaks(Joined, shape, cells, column_width(cells), cells.len() as int);
    lemma_breaks_are_inner_chunk_ends(shape);
    if shape.len() == 2 {
        assert(inner_chunk_ends(shape, cells.len(), 0) == 0);
    }
}

proof fn lemma_first_mismatch_is_least(shapes: Seq<Seq<usize>>, from: int, index: int)
    requires
        0 <= from <= index < shapes.len(),
        shapes[index] != shapes[0],
        forall|j: int| from <= j < index ==> #[trigger] shapes[j] == shapes[0],
    ensures
        first_mismatch(shapes, from) == index,
    decreases index - from,
{
    if from < index {
        lemma_first_mismatch_is_least(shapes, from + 1, index);
    }
}

proof fn lemma_no_mismatch(shapes: Seq<Seq<usize>>, from: int)
    requires
        0 <= from <= shapes.len(),
        forall|j: int| from <= j < shapes.len() ==> #[trigger] shapes[j] == shapes[0],
    ensures
        first_mismatch(shapes, from) == shapes.len(),
    decreases shapes.len() - from,
{
    if from < shapes.len() {
        lemma_no_mismatch(shapes, from + 1);
    }
}

/// Where the shapes of two or more arrays are not all the same, the text is
/// the message alone: it gives the first shape, then the index and the shape
/// of the first array whose shape differs from it, and no element of any
/// array.
pub proof fn lemma_mismatch_is_reported<F: ElementFormatter>(
    fmt: F,
    shapes: Seq<Seq<usize>>,
    arrays: Seq<Seq<Seq<char>>>,
    index: int,
)
    requires
        1 <= index < shapes.len(),
        shapes[index] != shapes[0],
        forall|j: int| 1 <= j < index ==> #[trigger] shapes[j] == shapes[0],
    ensures
        multi_text(fmt, shapes, arrays) == mismatch_text(shapes[0], index as nat, shapes[index]),
        multi_text(fmt, shapes, arrays)
            == "Error: Arrays have different shapes. Array 0 shape: "@ + shape_text(shapes[0])
            + ", Array "@ + decimal(index as nat) + " shape: "@ + shape_text(shapes[index]),
{
    lemma_first_mismatch_is_least(shapes, 1, index);
}

/// Two or more arrays of one shape are laid out side by side, each in its
/// own column width: on one line if the shape has one axis, block by block
/// if it has more.
pub proof fn lemma_same_shapes_side_by_side<F: ElementFormatter>(
    fmt: F,
    shapes: Seq<Seq<usize>>,
    arrays: Seq<Seq<Seq<char>>>,
)
    requires
        shapes.len() >= 2,
        forall|j: int| 1 <= j < shapes.len() ==> #[trigger] shapes[j] == shapes[0],
    ensures
        shapes[0].len() == 1 ==> multi_text(fmt, shapes, arrays) == line_text(
            fmt,
            arrays,
            column_widths(arrays),
            0,
            shapes[0][0] as int,
            arrays.len() as int,
        ),
        shapes[0].len() >= 2 ==> multi_text(fmt, shapes, arrays) == blocks_text(
            fmt,
            shapes[0],
            arrays,
            column_widths(arrays),
            0,
            0,
            shapes[0][0] as int,
        ),
{
    lemma_no_mismatch(shapes, 1);
}

/// Rendering has no hidden state: the text written for a list of arrays is
/// a function of the arrays' shapes, of their elements and of the method, so
/// two renderings of one request into equal sinks leave equal sinks.
pub proof fn lemma_rendering_repeats<F: ElementFormatter>(
    fmt: F,
    arrays: Seq<&TextArray>,
    sink: Seq<char>,
    first: Seq<char>,
    second: Seq<char>,
)
    requires
        first == sink + multi_text(fmt, array_shapes(arrays), array_cell_texts(arrays)),
        second == sink + multi_text(fmt, array_shapes(arrays), array_cell_texts(arrays)),
    ensures
        first == second,
{
}

} // verus!
