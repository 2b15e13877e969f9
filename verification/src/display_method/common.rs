//! Rendering shared by all display methods.

use crate::display_array::DisplayArray;
use crate::display_method::formatter::ElementFormatter;
use crate::display_method::DisplayMethod;
use crate::shape::{
    chunk_size, chunk_sizes, extent_product, flat_index, flat_index_of, lemma_offset_split,
    lemma_offset_upto_agrees, lemma_positive_product, lemma_product_ends, lemma_product_step,
    offset_from, offset_upto, row_size, same_shape,
};
use crate::text::{
    column_width, decimal, measure_column, newlines, shape_text, texts, write_decimal,
    write_newline, write_shape,
};
use crate::text_array::{array_cells, array_shape, TextArray};
use vstd::prelude::*;
use vstd::string::StringExecFns;

verus! {

/// How many of the first `axes` axes have a chunk that ends after exactly
/// `count` elements.
pub open spec fn boundaries_at(shape: Seq<usize>, count: int, axes: int) -> nat
    decreases axes,
{
    if axes <= 0 {
        0
    } else if count % (chunk_size(shape, axes - 1) as int) == 0 {
        boundaries_at(shape, count, axes - 1) + 1
    } else {
        boundaries_at(shape, count, axes - 1)
    }
}

/// Number of line breaks that follow the element at position `pos` of an
/// array of `total` elements: one for each axis, but the innermost, of which
/// a chunk ends there, and none after the last element.
pub open spec fn breaks_after(shape: Seq<usize>, total: nat, pos: int) -> nat {
    if pos + 1 < total {
        boundaries_at(shape, pos + 1, shape.len() - 1)
    } else {
        0
    }
}

/// What the single-array renderer writes for the element at position `pos`:
/// the element as the method formats it, then the line breaks that follow it.
pub open spec fn single_piece<F: ElementFormatter>(
    fmt: F,
    shape: Seq<usize>,
    cells: Seq<Seq<char>>,
    width: nat,
    pos: int,
) -> Seq<char> {
    fmt.element_text(cells[pos], width, (pos + 1) % (row_size(shape) as int) == 0) + newlines(
        breaks_after(shape, cells.len(), pos),
    )
}

/// What the single-array renderer writes for the first `count` elements.
pub open spec fn single_prefix<F: ElementFormatter>(
    fmt: F,
    shape: Seq<usize>,
    cells: Seq<Seq<char>>,
    width: nat,
    count: int,
) -> Seq<char>
    decreases count,
{
    if count <= 0 {
        Seq::empty()
    } else {
        single_prefix(fmt, shape, cells, width, count - 1) + single_piece(
            fmt,
            shape,
            cells,
            width,
            count - 1,
        )
    }
}

/// The text of one array of shape `shape` whose elements, in row-major
/// order, are `cells`: every element in turn, in a column as wide as the
/// widest of them. An array without axes has no text.
pub open spec fn single_text<F: ElementFormatter>(
    fmt: F,
    shape: Seq<usize>,
    cells: Seq<Seq<char>>,
) -> Seq<char> {
    if shape.len() == 0 {
        Seq::empty()
    } else {
        single_prefix(fmt, shape, cells, column_width(cells), cells.len() as int)
    }
}

/// Appends the line breaks that follow the element at position `pos`.
fn write_breaks(f: &mut String, shape: &Vec<usize>, sizes: &Vec<usize>, total: usize, pos: usize)
    requires
        shape.len() >= 1,
        sizes.len() == shape.len() - 1,
        forall|k: int| 0 <= k < sizes.len() ==> sizes[k] as nat == chunk_size(shape@, k),
        forall|k: int| 0 <= k < sizes.len() ==> sizes[k] > 0,
        pos < total,
    ensures
        final(f)@ == old(f)@ + newlines(breaks_after(shape@, total as nat, pos as int)),
{
    let mut k: usize = 0;
    let ghost mut written: nat = 0;
    assert(f@ =~= old(f)@ + newlines(0));
    while k < sizes.len()
        invariant
            k <= sizes.len(),
            sizes.len() == shape.len() - 1,
            forall|k: int| 0 <= k < sizes.len() ==> sizes[k] as nat == chunk_size(shape@, k),
            forall|k: int| 0 <= k < sizes.len() ==> sizes[k] > 0,
            pos < total,
            f@ == old(f)@ + newlines(written),
            written == if pos + 1 < total {
                boundaries_at(shape@, pos + 1, k as int)
            } else {
                0
            },
        decreases sizes.len() - k,
    {
        let chunk = sizes[k];
        // newline at end of any axis-block, but not after the very last element
        if (pos + 1) % chunk == 0 && pos + 1 < total {
            write_newline(f);
            proof {
                assert(f@ =~= old(f)@ + newlines(written + 1));
                written = written + 1;
            }
        }
        k = k + 1;
    }
}

/// Writes one array, given as its shape and its elements in row-major
/// order, to `f`.
pub fn fmt_single_cells<F: ElementFormatter>(
    shape: &Vec<usize>,
    cells: &Vec<String>,
    f: &mut String,
    element_formatter: &F,
)
    requires
        cells@.len() == extent_product(shape@),
    ensures
        final(f)@ == old(f)@ + single_text(*element_formatter, shape@, texts(cells@)),
{
    let ndim = shape.len();
    let total = cells.len();
    if ndim == 0 || total == 0 {
        assert(f@ =~= old(f)@ + single_text(*element_formatter, shape@, texts(cells@)));
        return;
    }
    // 1) column width for padding
    let width = measure_column(cells);
    // 2) chunk sizes: one per axis (except last) = prod(shape[k+1..])
    proof {
        assert forall|k: int| 0 <= k < shape.len() - 1 implies chunk_size(shape@, k)
            <= usize::MAX by {
            lemma_positive_product(shape@, k + 1);
        }
    }
    let sizes = chunk_sizes(shape);
    // for 1D use full length, else first chunk
    let row = if ndim == 1 {
        shape[0]
    } else {
        sizes[0]
    };
    proof {
        lemma_product_ends(shape@);
        lemma_product_step(shape@, 0);
        lemma_positive_product(shape@, 0);
        lemma_positive_product(shape@, 1);
        assert(row as nat == row_size(shape@));
        assert(row > 0);
        assert forall|k: int| 0 <= k < sizes.len() implies sizes[k] > 0 by {
            lemma_positive_product(shape@, k + 1);
        }
    }
    let ghost fmt = *element_formatter;
    let ghost all = texts(cells@);
    let mut i: usize = 0;
    assert(f@ =~= old(f)@ + single_prefix(fmt, shape@, all, width as nat, 0));
    while i < total
        invariant
            i <= total,
            total == cells.len(),
            shape.len() >= 1,
            sizes.len() == shape.len() - 1,
            forall|k: int| 0 <= k < sizes.len() ==> sizes[k] as nat == chunk_size(shape@, k),
            forall|k: int| 0 <= k < sizes.len() ==> sizes[k] > 0,
            row as nat == row_size(shape@),
            row > 0,
            fmt == *element_formatter,
            all == texts(cells@),
            f@ == old(f)@ + single_prefix(fmt, shape@, all, width as nat, i as int),
        decreases total - i,
    {
        let is_last_in_row = (i + 1) % row == 0;
        let ghost before = f@;
        element_formatter.format_element(f, cells[i].as_str(), width, is_last_in_row);
        write_breaks(f, shape, &sizes, total, i);
        proof {
            assert(all[i as int] == cells@[i as int]@);
            assert(f@ =~= before + single_piece(fmt, shape@, all, width as nat, i as int));
            assert(f@ =~= old(f)@ + single_prefix(fmt, shape@, all, width as nat, i + 1));
        }
        i = i + 1;
    }
}

/// Writes one array to `f`.
pub fn fmt_single_array<F: ElementFormatter>(
    arr: &TextArray,
    f: &mut String,
    element_formatter: &F,
)
    ensures
        final(f)@ == old(f)@ + single_text(
            *element_formatter,
            array_shape(*arr),
            array_cells(*arr),
        ),
{
    let shape = arr.shape();
    let cells = arr.cells();
    fmt_single_cells(&shape, &cells, f, element_formatter);
}

/// The first `count` elements of the row of `len` elements that starts at
/// position `start`, each as the method formats it in a column of `width`.
pub open spec fn row_text<F: ElementFormatter>(
    fmt: F,
    cells: Seq<Seq<char>>,
    width: nat,
    start: int,
    len: int,
    count: int,
) -> Seq<char>
    decreases count,
{
    if count <= 0 {
        Seq::empty()
    } else {
        row_text(fmt, cells, width, start, len, count - 1) + fmt.element_text(
            cells[start + count - 1],
            width,
            count == len,
        )
    }
}

/// One line of the side-by-side layout, up to and including array
/// `count - 1`: of each array the row of `len` elements that starts at
/// `start`, in a column of that array's own width, with the method's
/// separator after every array but the last of `arrays`.
pub open spec fn line_text<F: ElementFormatter>(
    fmt: F,
    arrays: Seq<Seq<Seq<char>>>,
    widths: Seq<nat>,
    start: int,
    len: int,
    count: int,
) -> Seq<char>
    decreases count,
{
    if count <= 0 {
        Seq::empty()
    } else {
        line_text(fmt, arrays, widths, start, len, count - 1) + row_text(
            fmt,
            arrays[count - 1],
            widths[count - 1],
            start,
            len,
            len,
        ) + if count < arrays.len() {
            fmt.array_separator()
        } else {
            Seq::empty()
        }
    }
}

/// The side-by-side text of the first `count` blocks along axis `level`,
/// where the first of them starts at flat position `base`.
///
/// Along the second-to-last axis a block is one line, followed by a line
/// break. Along an outer axis a block is the text of all its blocks along the
/// next axis, and one more line break parts it from the block that follows.
pub open spec fn blocks_text<F: ElementFormatter>(
    fmt: F,
    shape: Seq<usize>,
    arrays: Seq<Seq<Seq<char>>>,
    widths: Seq<nat>,
    level: int,
    base: int,
    count: int,
) -> Seq<char>
    decreases shape.len() - level, count,
{
    if level < 0 || level + 2 > shape.len() || count <= 0 {
        Seq::empty()
    } else {
        let start = base + (count - 1) * chunk_size(shape, level);
        let before = blocks_text(fmt, shape, arrays, widths, level, base, count - 1);
        if level + 2 == shape.len() {
            before + line_text(
                fmt,
                arrays,
                widths,
                start,
                shape[level + 1] as int,
                arrays.len() as int,
            ) + newlines(1)
        } else {
            before + blocks_text(
                fmt,
                shape,
                arrays,
                widths,
                level + 1,
                start,
                shape[level + 1] as int,
            ) + if count < shape[level] {
                newlines(1)
            } else {
                Seq::empty()
            }
        }
    }
}

/// The least index from `from` on whose shape differs from the first shape,
/// or the number of shapes if there is none.
pub open spec fn first_mismatch(shapes: Seq<Seq<usize>>, from: int) -> int
    decreases shapes.len() - from,
{
    if from < 0 || from >= shapes.len() {
        shapes.len() as int
    } else if shapes[from] != shapes[0] {
        from
    } else {
        first_mismatch(shapes, from + 1)
    }
}

/// The message written in place of the arrays when array `index` has shape
/// `other` and the first array has shape `first`.
pub open spec fn mismatch_text(first: Seq<usize>, index: nat, other: Seq<usize>) -> Seq<char> {
    "Error: Arrays have different shapes. Array 0 shape: "@ + shape_text(first) + ", Array "@
        + decimal(index) + " shape: "@ + shape_text(other)
}

/// The column width of each of `arrays`.
pub open spec fn column_widths(arrays: Seq<Seq<Seq<char>>>) -> Seq<nat> {
    Seq::new(arrays.len(), |a: int| column_width(arrays[a]))
}

/// The text of several arrays, given by their shapes and their elements in
/// row-major order.
///
/// No array gives no text, and one array is written as by [`single_text`].
/// If a shape differs from the first, the text is the message for the first
/// that does. Else every array has a column width of its own; arrays of one
/// axis stand on one line, arrays of more axes are laid out block by block,
/// and arrays without axes have no text.
pub open spec fn multi_text<F: ElementFormatter>(
    fmt: F,
    shapes: Seq<Seq<usize>>,
    arrays: Seq<Seq<Seq<char>>>,
) -> Seq<char> {
    if shapes.len() == 0 {
        Seq::empty()
    } else if shapes.len() == 1 {
        single_text(fmt, shapes[0], arrays[0])
    } else {
        let shape = shapes[0];
        let bad = first_mismatch(shapes, 1);
        if bad < shapes.len() {
            mismatch_text(shape, bad as nat, shapes[bad])
        } else if shape.len() == 0 {
            Seq::empty()
        } else if shape.len() == 1 {
            line_text(fmt, arrays, column_widths(arrays), 0, shape[0] as int, arrays.len() as int)
        } else {
            blocks_text(fmt, shape, arrays, column_widths(arrays), 0, 0, shape[0] as int)
        }
    }
}

/// The shapes held by a sequence of vectors.
pub open spec fn shape_views(shapes: Seq<Vec<usize>>) -> Seq<Seq<usize>> {
    Seq::new(shapes.len(), |i: int| shapes[i]@)
}

/// The element texts held by a sequence of vectors of strings.
pub open spec fn cell_views(arrays: Seq<Vec<String>>) -> Seq<Seq<Seq<char>>> {
    Seq::new(arrays.len(), |i: int| texts(arrays[i]@))
}

/// The shapes of a sequence of arrays.
pub open spec fn array_shapes(arrays: Seq<&TextArray>) -> Seq<Seq<usize>> {
    Seq::new(arrays.len(), |i: int| array_shape(*arrays[i]))
}

/// The element texts of a sequence of arrays.
pub open spec fn array_cell_texts(arrays: Seq<&TextArray>) -> Seq<Seq<Seq<char>>> {
    Seq::new(arrays.len(), |i: int| array_cells(*arrays[i]))
}

/// The widths held by a vector, as numbers without bound.
pub open spec fn width_views(widths: Seq<usize>) -> Seq<nat> {
    Seq::new(widths.len(), |a: int| widths[a] as nat)
}

/// Whether `arrays` are arrays of shape `shape`: each of them holds as many
/// elements as the shape has.
pub open spec fn arrays_fit(shape: Seq<usize>, arrays: Seq<Vec<String>>) -> bool {
    forall|a: int|
        0 <= a < arrays.len() ==> (#[trigger] arrays[a])@.len() == extent_product(shape)
}

/// Writes the message for a shape that differs from the first.
fn write_mismatch(f: &mut String, first: &Vec<usize>, index: usize, other: &Vec<usize>)
    ensures
        final(f)@ == old(f)@ + mismatch_text(first@, index as nat, other@),
{
    f.append("Error: Arrays have different shapes. Array 0 shape: ");
    write_shape(f, first);
    f.append(", Array ");
    write_decimal(f, index);
    f.append(" shape: ");
    write_shape(f, other);
    assert(f@ =~= old(f)@ + mismatch_text(first@, index as nat, other@));
}

/// Whether the descent that starts at axis `level` steps along axis `d`: no
/// axis from `level` to `d` is empty, and for the innermost axis, along which
/// the elements of the arrays are read, there is an array.
pub open spec fn axis_visited(shape: Seq<usize>, level: int, d: int, arrays: nat) -> bool {
    &&& forall|e: int| level <= e <= d ==> #[trigger] shape[e] > 0
    &&& (d + 1 < shape.len() || arrays > 0)
}

/// Writes the blocks along axis `level` of several arrays of one shape side
/// by side, inside the block that the first `level` entries of `indices`
/// select. Of the entries of `indices` from `level` on, each one whose axis
/// the descent steps along is left at the last index of its axis, and the
/// others are left as they were.
pub fn recursive_format_arrays<F: ElementFormatter>(
    f: &mut String,
    arrays: &Vec<Vec<String>>,
    array_widths: &Vec<usize>,
    shape: &Vec<usize>,
    level: usize,
    indices: &mut Vec<usize>,
    element_formatter: &F,
)
    requires
        level + 2 <= shape.len(),
        old(indices).len() == shape.len(),
        forall|d: int| 0 <= d < level ==> old(indices)[d] < shape[d],
        arrays_fit(shape@, arrays@),
        array_widths.len() == arrays.len(),
    ensures
        final(indices).len() == shape.len(),
        forall|d: int| 0 <= d < level ==> final(indices)[d] == old(indices)[d],
        forall|d: int|
            level <= d < shape.len() ==> #[trigger] final(indices)[d] == if axis_visited(
                shape@,
                level as int,
                d,
                arrays.len() as nat,
            ) {
                shape[d] - 1
            } else {
                old(indices)[d] as int
            },
        final(f)@ == old(f)@ + blocks_text(
            *element_formatter,
            shape@,
            cell_views(arrays@),
            width_views(array_widths@),
            level as int,
            offset_upto(shape@, old(indices)@, level as int) as int,
            shape[level as int] as int,
        ),
    decreases shape.len() - level,
{
    let ghost fmt = *element_formatter;
    let ghost all = cell_views(arrays@);
    let ghost widths = width_views(array_widths@);
    let ghost base = offset_upto(shape@, old(indices)@, level as int) as int;
    let ghost chunk = chunk_size(shape@, level as int) as int;
    let ndim = shape.len();
    assert(f@ =~= old(f)@ + blocks_text(fmt, shape@, all, widths, level as int, base, 0));
    if level == ndim - 2 {
        // At the row level (second-to-last dimension)
        let columns = shape[level + 1];
        let mut row: usize = 0;
        while row < shape[level]
            invariant
                row <= shape[level as int],
                ndim == shape.len(),
                level + 2 == ndim,
                columns == shape[level + 1],
                indices.len() == shape.len(),
                forall|d: int| 0 <= d < level ==> indices[d] == old(indices)[d],
                forall|d: int| 0 <= d < level ==> indices[d] < shape[d],
                row == 0 ==> indices@ == old(indices)@,
                row > 0 ==> indices[level as int] == row - 1,
                row > 0 ==> indices[level + 1] == if columns > 0 && arrays.len() > 0 {
                    columns - 1
                } else {
                    old(indices)[level + 1] as int
                },
                arrays_fit(shape@, arrays@),
                array_widths.len() == arrays.len(),
                widths == width_views(array_widths@),
                fmt == *element_formatter,
                all == cell_views(arrays@),
                base == offset_upto(shape@, old(indices)@, level as int),
                chunk == chunk_size(shape@, level as int),
                f@ == old(f)@ + blocks_text(
                    fmt,
                    shape@,
                    all,
                    widths,
                    level as int,
                    base,
                    row as int,
                ),
            decreases shape[level as int] - row,
        {
            indices.set(level, row);
            let ghost start = base + row * chunk;
            let ghost line_start = f@;
            // Process each array at this row
            let mut arr_idx: usize = 0;
            assert(f@ =~= line_start + line_text(fmt, all, widths, start, columns as int, 0));
            while arr_idx < arrays.len()
                invariant
                    arr_idx <= arrays.len(),
                    row < shape[level as int],
                    ndim == shape.len(),
                    level + 2 == ndim,
                    columns == shape[level + 1],
                    indices.len() == shape.len(),
                    indices[level as int] == row,
                    indices[level + 1] == if columns > 0 && (arr_idx > 0 || (row > 0
                        && arrays.len() > 0)) {
                        columns - 1
                    } else {
                        old(indices)[level + 1] as int
                    },
                    forall|d: int| 0 <= d < level ==> indices[d] == old(indices)[d],
                    forall|d: int| 0 <= d < level ==> indices[d] < shape[d],
                    arrays_fit(shape@, arrays@),
                    array_widths.len() == arrays.len(),
                    widths == width_views(array_widths@),
                    fmt == *element_formatter,
                    all == cell_views(arrays@),
                    base == offset_upto(shape@, old(indices)@, level as int),
                    chunk == chunk_size(shape@, level as int),
                    start == base + row * chunk,
                    f@ == line_start + line_text(
                        fmt,
                        all,
                        widths,
                        start,
                        columns as int,
                        arr_idx as int,
                    ),
                decreases arrays.len() - arr_idx,
            {
                let ghost cells = all[arr_idx as int];
                let ghost width = array_widths[arr_idx as int] as nat;
                let ghost row_start = f@;
                let ghost prior = indices@[level + 1];
                // Print each column in this row
                let mut col: usize = 0;
                assert(f@ =~= row_start + row_text(fmt, cells, width, start, columns as int, 0));
                while col < columns
                    invariant
                        col <= columns,
                        arr_idx < arrays.len(),
                        row < shape[level as int],
                        ndim == shape.len(),
                        level + 2 == ndim,
                        columns == shape[level + 1],
                        indices.len() == shape.len(),
                        indices[level as int] == row,
                        indices[level + 1] == if col > 0 {
                            col - 1
                        } else {
                            prior as int
                        },
                        forall|d: int| 0 <= d < level ==> indices[d] == old(indices)[d],
                        forall|d: int| 0 <= d < level ==> indices[d] < shape[d],
                        arrays_fit(shape@, arrays@),
                        array_widths.len() == arrays.len(),
                        widths == width_views(array_widths@),
                        fmt == *element_formatter,
                        all == cell_views(arrays@),
                        cells == all[arr_idx as int],
                        width == array_widths[arr_idx as int] as nat,
                        base == offset_upto(shape@, old(indices)@, level as int),
                        chunk == chunk_size(shape@, level as int),
                        start == base + row * chunk,
                        f@ == row_start + row_text(
                            fmt,
                            cells,
                            width,
                            start,
                            columns as int,
                            col as int,
                        ),
                    decreases columns - col,
                {
                    indices.set(level + 1, col);
                    proof {
                        assert(arrays@[arr_idx as int]@.len() == extent_product(shape@));
                        assert(arrays@[arr_idx as int].len() == arrays@[arr_idx as int]@.len());
                        lemma_offset_split(shape@, indices@, level as int);
                        lemma_offset_upto_agrees(shape@, indices@, old(indices)@, level as int);
                        lemma_product_ends(shape@);
                        assert(offset_from(shape@, indices@, level + 2) == 0);
                        assert(offset_from(shape@, indices@, level + 1) == col as nat) by {
                            assert(chunk_size(shape@, level + 1) == 1);
                            assert((col as nat) * 1 == col as nat);
                        }
                        assert(offset_from(shape@, indices@, level as int) == (row as nat) * (
                        chunk as nat) + col as nat);
                        assert(flat_index(shape@, indices@) == start + col);
                    }
                    // Calculate flattened index
                    let flat = flat_index_of(shape, indices);
                    let is_last_in_row = col == columns - 1;
                    element_formatter.format_element(
                        f,
                        arrays[arr_idx][flat].as_str(),
                        array_widths[arr_idx],
                        is_last_in_row,
                    );
                    proof {
                        assert(cells[start + col] == arrays@[arr_idx as int]@[flat as int]@);
                        assert(f@ =~= row_start + row_text(
                            fmt,
                            cells,
                            width,
                            start,
                            columns as int,
                            col + 1,
                        ));
                    }
                    col = col + 1;
                }
                // Space between arrays
                if arr_idx < arrays.len() - 1 {
                    element_formatter.write_array_separator(f);
                }
                proof {
                    assert(f@ =~= line_start + line_text(
                        fmt,
                        all,
                        widths,
                        start,
                        columns as int,
                        arr_idx + 1,
                    ));
                }
                arr_idx = arr_idx + 1;
            }
            write_newline(f);
            proof {
                assert(f@ =~= old(f)@ + blocks_text(
                    fmt,
                    shape@,
                    all,
                    widths,
                    level as int,
                    base,
                    row + 1,
                ));
            }
            row = row + 1;
        }
        return;
    }
    // Process higher dimensions recursively
    let mut i: usize = 0;
    while i < shape[level]
        invariant
            i <= shape[level as int],
            ndim == shape.len(),
            level + 2 < ndim,
            indices.len() == shape.len(),
            forall|d: int| 0 <= d < level ==> indices[d] == old(indices)[d],
            forall|d: int| 0 <= d < level ==> indices[d] < shape[d],
            i == 0 ==> indices@ == old(indices)@,
            i > 0 ==> indices[level as int] == i - 1,
            i > 0 ==> forall|d: int|
                level < d < shape.len() ==> #[trigger] indices[d] == if axis_visited(
                    shape@,
                    level + 1,
                    d,
                    arrays.len() as nat,
                ) {
                    shape[d] - 1
                } else {
                    old(indices)[d] as int
                },
            arrays_fit(shape@, arrays@),
            array_widths.len() == arrays.len(),
            widths == width_views(array_widths@),
            fmt == *element_formatter,
            all == cell_views(arrays@),
            base == offset_upto(shape@, old(indices)@, level as int),
            chunk == chunk_size(shape@, level as int),
            f@ == old(f)@ + blocks_text(fmt, shape@, all, widths, level as int, base, i as int),
        decreases shape[level as int] - i,
    {
        indices.set(level, i);
        proof {
            lemma_offset_upto_agrees(shape@, indices@, old(indices)@, level as int);
            assert(offset_upto(shape@, indices@, level + 1) == base + (i as nat) * (chunk as nat));
            assert((i as nat) * (chunk as nat) == i * chunk) by (nonlinear_arith)
                requires
                    chunk >= 0,
            ;
        }
        recursive_format_arrays(
            f,
            arrays,
            array_widths,
            shape,
            level + 1,
            indices,
            element_formatter,
        );
        // Add extra newline between blocks except after the last one
        if i < shape[level] - 1 {
            write_newline(f);
        }
        proof {
            assert(f@ =~= old(f)@ + blocks_text(
                fmt,
                shape@,
                all,
                widths,
                level as int,
                base,
                i + 1,
            ));
        }
        i = i + 1;
    }
}

/// Writes several arrays, given by their shapes and their elements in
/// row-major order, to `f`: side by side if they have one shape, else the
/// message that names the first shape that differs.
pub fn fmt_multiple_cells<F: ElementFormatter>(
    shapes: &Vec<Vec<usize>>,
    arrays: &Vec<Vec<String>>,
    f: &mut String,
    element_formatter: &F,
)
    requires
        shapes.len() == arrays.len(),
        forall|a: int|
            0 <= a < arrays.len() ==> (#[trigger] arrays[a])@.len() == extent_product(shapes[a]@),
    ensures
        final(f)@ == old(f)@ + multi_text(
            *element_formatter,
            shape_views(shapes@),
            cell_views(arrays@),
        ),
{
    let ghost fmt = *element_formatter;
    let ghost dims = shape_views(shapes@);
    let ghost all = cell_views(arrays@);
    if arrays.len() == 0 {
        assert(f@ =~= old(f)@ + multi_text(fmt, dims, all));
        return;
    }
    if arrays.len() == 1 {
        fmt_single_cells(&shapes[0], &arrays[0], f, element_formatter);
        return;
    }
    // Make sure all arrays have the same shape
    let first_shape = &shapes[0];
    let mut i: usize = 1;
    while i < shapes.len()
        invariant
            1 <= i <= shapes.len(),
            shapes.len() == arrays.len(),
            shapes.len() >= 2,
            first_shape == &shapes[0],
            dims == shape_views(shapes@),
            first_mismatch(dims, 1) == first_mismatch(dims, i as int),
            forall|a: int| 1 <= a < i ==> (#[trigger] shapes[a])@ == shapes[0]@,
            f@ == old(f)@,
        decreases shapes.len() - i,
    {
        if !same_shape(&shapes[i], first_shape) {
            write_mismatch(f, first_shape, i, &shapes[i]);
            return;
        }
        i = i + 1;
    }
    let ndim = first_shape.len();
    // Calculate column widths for each array
    let mut array_widths: Vec<usize> = Vec::with_capacity(arrays.len());
    let mut a: usize = 0;
    while a < arrays.len()
        invariant
            a <= arrays.len(),
            array_widths.len() == a,
            forall|b: int|
                0 <= b < a ==> (#[trigger] array_widths[b]) as nat == column_width(
                    texts(arrays[b]@),
                ),
        decreases arrays.len() - a,
    {
        let width = measure_column(&arrays[a]);
        array_widths.push(width);
        a = a + 1;
    }
    let ghost widths = width_views(array_widths@);
    assert(widths =~= column_widths(all));
    assert(arrays_fit(first_shape@, arrays@)) by {
        assert forall|b: int| 0 <= b < arrays.len() implies (#[trigger] arrays[b])@.len()
            == extent_product(first_shape@) by {
            if b > 0 {
                assert(shapes[b]@ == shapes[0]@);
            }
        }
    }
    if ndim == 0 {
        assert(f@ =~= old(f)@ + multi_text(fmt, dims, all));
        return;
    }
    // Special case for 1D arrays
    if ndim == 1 {
        let len = first_shape[0];
        proof {
            lemma_product_ends(first_shape@);
            lemma_product_step(first_shape@, 0);
            assert(extent_product(first_shape@) == len as nat) by (nonlinear_arith)
                requires
                    extent_product(first_shape@) == (len as nat) * 1,
            ;
        }
        let mut arr_idx: usize = 0;
        assert(f@ =~= old(f)@ + line_text(fmt, all, widths, 0, len as int, 0));
        while arr_idx < arrays.len()
            invariant
                arr_idx <= arrays.len(),
                extent_product(first_shape@) == len as nat,
                arrays_fit(first_shape@, arrays@),
                array_widths.len() == arrays.len(),
                widths == width_views(array_widths@),
                fmt == *element_formatter,
                all == cell_views(arrays@),
                f@ == old(f)@ + line_text(fmt, all, widths, 0, len as int, arr_idx as int),
            decreases arrays.len() - arr_idx,
        {
            let arr = &arrays[arr_idx];
            let ghost cells = all[arr_idx as int];
            let ghost width = array_widths[arr_idx as int] as nat;
            let ghost row_start = f@;
            let mut i: usize = 0;
            assert(arr@.len() == len);
            assert(f@ =~= row_start + row_text(fmt, cells, width, 0, len as int, 0));
            while i < arr.len()
                invariant
                    i <= arr.len(),
                    arr_idx < arrays.len(),
                    arr == &arrays[arr_idx as int],
                    arr@.len() == len,
                    arrays_fit(first_shape@, arrays@),
                array_widths.len() == arrays.len(),
                widths == width_views(array_widths@),
                    fmt == *element_formatter,
                    all == cell_views(arrays@),
                    cells == all[arr_idx as int],
                    width == array_widths[arr_idx as int] as nat,
                    f@ == row_start + row_text(fmt, cells, width, 0, len as int, i as int),
                decreases arr.len() - i,
            {
                let is_last_in_row = i == arr.len() - 1;
                element_formatter.format_element(
                    f,
                    arr[i].as_str(),
                    array_widths[arr_idx],
                    is_last_in_row,
                );
                proof {
                    assert(cells[0 + i] == arr@[i as int]@);
                    assert(f@ =~= row_start + row_text(fmt, cells, width, 0, len as int, i + 1));
                }
                i = i + 1;
            }
            if arr_idx < arrays.len() - 1 {
                element_formatter.write_array_separator(f);
            }
            proof {
                assert(f@ =~= old(f)@ + line_text(fmt, all, widths, 0, len as int, arr_idx + 1));
            }
            arr_idx = arr_idx + 1;
        }
        return;
    }
    // Handle multi-dimensional arrays by recursive traversal
    let mut indices: Vec<usize> = vec![0; ndim];
    recursive_format_arrays(
        f,
        arrays,
        &array_widths,
        first_shape,
        0,
        &mut indices,
        element_formatter,
    );
}

/// Writes several arrays to `f`: side by side if they have one shape, else
/// the message that names the first shape that differs.
pub fn fmt_multiple_arrays<F: ElementFormatter>(
    arrays: &Vec<&TextArray>,
    f: &mut String,
    element_formatter: &F,
)
    ensures
        final(f)@ == old(f)@ + multi_text(
            *element_formatter,
            array_shapes(arrays@),
            array_cell_texts(arrays@),
        ),
{
    let mut shapes: Vec<Vec<usize>> = Vec::with_capacity(arrays.len());
    let mut cells: Vec<Vec<String>> = Vec::with_capacity(arrays.len());
    let mut a: usize = 0;
    while a < arrays.len()
        invariant
            a <= arrays.len(),
            shapes.len() == a,
            cells.len() == a,
            forall|b: int| 0 <= b < a ==> (#[trigger] shapes[b])@ == array_shape(*arrays[b]),
            forall|b: int| 0 <= b < a ==> texts((#[trigger] cells[b])@) == array_cells(*arrays[b]),
            forall|b: int|
                0 <= b < a ==> (#[trigger] cells[b])@.len() == extent_product(shapes[b]@),
        decreases arrays.len() - a,
    {
        shapes.push(arrays[a].shape());
        cells.push(arrays[a].cells());
        a = a + 1;
    }
    assert(shape_views(shapes@) =~= array_shapes(arrays@));
    assert(cell_views(cells@) =~= array_cell_texts(arrays@));
    fmt_multiple_cells(&shapes, &cells, f, element_formatter);
}

/// Writes the arrays of a display wrapper to `f` with the wrapper's method.
#[inline]
pub fn display_impl<F: DisplayMethod + ElementFormatter>(
    display_array: &DisplayArray<'_, F>,
    f: &mut String,
    element_formatter: &F,
)
    ensures
        final(f)@ == old(f)@ + display_array.text(*element_formatter),
{
    if display_array.arrays.len() == 1 {
        assert(array_shapes(display_array.arrays@)[0] == array_shape(*display_array.arrays@[0]));
        assert(array_cell_texts(display_array.arrays@)[0] == array_cells(
            *display_array.arrays@[0],
        ));
        return fmt_single_array(display_array.arrays[0], f, element_formatter);
    }
    fmt_multiple_arrays(&display_array.arrays, f, element_formatter)
}

} // verus!
