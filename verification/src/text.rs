//! Pieces of text that every display method is built from: runs of spaces,
//! right-aligned fields, column widths, decimal numbers and shape lists.

use vstd::prelude::*;
use vstd::string::StringExecFns;

verus! {

/// `n` spaces.
pub open spec fn spaces(n: nat) -> Seq<char> {
    Seq::new(n, |i: int| ' ')
}

/// `n` line breaks.
pub open spec fn newlines(n: nat) -> Seq<char> {
    Seq::new(n, |i: int| '\n')
}

/// `s` right-aligned in a field of `width` characters. A text that is already
/// `width` characters or longer is left as it is.
pub open spec fn pad_left(s: Seq<char>, width: nat) -> Seq<char> {
    if s.len() < width {
        spaces((width - s.len()) as nat) + s
    } else {
        s
    }
}

/// The texts of a sequence of strings.
pub open spec fn texts(cells: Seq<String>) -> Seq<Seq<char>> {
    Seq::new(cells.len(), |i: int| cells[i]@)
}

/// Width of the column that holds `cells`: the length in characters of the
/// longest of them, 0 when there are none.
pub open spec fn column_width(cells: Seq<Seq<char>>) -> nat
    decreases cells.len(),
{
    if cells.len() == 0 {
        0
    } else {
        let rest = column_width(cells.drop_last());
        let last = cells.last().len();
        if last > rest {
            last
        } else {
            rest
        }
    }
}

/// The column width bounds every cell, and some cell reaches it.
pub proof fn lemma_column_width_is_max(cells: Seq<Seq<char>>)
    ensures
        forall|i: int|
            0 <= i < cells.len() ==> (#[trigger] cells[i]).len() <= column_width(cells),
        cells.len() > 0 ==> exists|i: int|
            0 <= i < cells.len() && (#[trigger] cells[i]).len() == column_width(cells),
    decreases cells.len(),
{
    if cells.len() > 0 {
        let front = cells.drop_last();
        lemma_column_width_is_max(front);
        assert forall|i: int| 0 <= i < cells.len() implies (#[trigger] cells[i]).len()
            <= column_width(cells) by {
            if i < front.len() {
                assert(cells[i] == front[i]);
            }
        }
        if cells.last().len() > column_width(front) || front.len() == 0 {
            assert(cells[cells.len() - 1].len() == column_width(cells));
        } else {
            let j = choose|j: int|
                0 <= j < front.len() && (#[trigger] front[j]).len() == column_width(front);
            assert(cells[j] == front[j]);
        }
    }
}

/// The decimal digit for `d`, which is below 10.
pub open spec fn digit(d: nat) -> char {
    if d == 0 {
        '0'
    } else if d == 1 {
        '1'
    } else if d == 2 {
        '2'
    } else if d == 3 {
        '3'
    } else if d == 4 {
        '4'
    } else if d == 5 {
        '5'
    } else if d == 6 {
        '6'
    } else if d == 7 {
        '7'
    } else if d == 8 {
        '8'
    } else {
        '9'
    }
}

/// `n` in decimal, without leading zeros.
pub open spec fn decimal(n: nat) -> Seq<char>
    decreases n,
{
    if n < 10 {
        seq![digit(n)]
    } else {
        decimal(n / 10).push(digit(n % 10))
    }
}

/// The first `count` extents of `shape` in decimal, with a comma and a space
/// between each two.
pub open spec fn extent_list(shape: Seq<usize>, count: int) -> Seq<char>
    decreases count,
{
    if count <= 0 {
        Seq::empty()
    } else if count == 1 {
        decimal(shape[0] as nat)
    } else {
        extent_list(shape, count - 1) + seq![',', ' '] + decimal(shape[count - 1] as nat)
    }
}

/// A shape as a bracketed list, such as `[2, 3]`.
pub open spec fn shape_text(shape: Seq<usize>) -> Seq<char> {
    seq!['['] + extent_list(shape, shape.len() as int) + seq![']']
}

/// Appends one line break.
pub fn write_newline(f: &mut String)
    ensures
        final(f)@ == old(f)@ + newlines(1),
{
    proof {
        reveal_strlit("\n");
    }
    f.append("\n");
    assert(f@ =~= old(f)@ + newlines(1));
}

/// Appends `n` spaces.
pub fn write_spaces(f: &mut String, n: usize)
    ensures
        final(f)@ == old(f)@ + spaces(n as nat),
{
    let mut i: usize = 0;
    assert(f@ =~= old(f)@ + spaces(0));
    while i < n
        invariant
            i <= n,
            f@ == old(f)@ + spaces(i as nat),
        decreases n - i,
    {
        proof {
            reveal_strlit(" ");
        }
        f.append(" ");
        i = i + 1;
        assert(f@ =~= old(f)@ + spaces(i as nat));
    }
}

/// Appends `s`, right-aligned in a field of `width` characters.
pub fn write_padded(f: &mut String, s: &str, width: usize)
    ensures
        final(f)@ == old(f)@ + pad_left(s@, width as nat),
{
    let count = s.unicode_len();
    if count < width {
        write_spaces(f, width - count);
    }
    f.append(s);
    assert(f@ =~= old(f)@ + pad_left(s@, width as nat));
}

/// Computes the column width of `cells`.
pub fn measure_column(cells: &Vec<String>) -> (width: usize)
    ensures
        width as nat == column_width(texts(cells@)),
{
    let mut width: usize = 0;
    let mut i: usize = 0;
    assert(texts(cells@).take(0) =~= Seq::<Seq<char>>::empty());
    while i < cells.len()
        invariant
            i <= cells.len(),
            width as nat == column_width(texts(cells@).take(i as int)),
        decreases cells.len() - i,
    {
        let len = cells[i].as_str().unicode_len();
        proof {
            let next = texts(cells@).take(i + 1);
            assert(next.drop_last() =~= texts(cells@).take(i as int));
            assert(next.last() == cells@[i as int]@);
        }
        if len > width {
            width = len;
        }
        i = i + 1;
    }
    assert(texts(cells@).take(cells.len() as int) =~= texts(cells@));
    width
}

/// The one-character text of the decimal digit `d`.
fn digit_str(d: usize) -> (r: &'static str)
    requires
        d < 10,
    ensures
        r@ == seq![digit(d as nat)],
{
    proof {
        reveal_strlit("0");
        reveal_strlit("1");
        reveal_strlit("2");
        reveal_strlit("3");
        reveal_strlit("4");
        reveal_strlit("5");
        reveal_strlit("6");
        reveal_strlit("7");
        reveal_strlit("8");
        reveal_strlit("9");
    }
    let r = if d == 0 {
        "0"
    } else if d == 1 {
        "1"
    } else if d == 2 {
        "2"
    } else if d == 3 {
        "3"
    } else if d == 4 {
        "4"
    } else if d == 5 {
        "5"
    } else if d == 6 {
        "6"
    } else if d == 7 {
        "7"
    } else if d == 8 {
        "8"
    } else {
        "9"
    };
    assert(r@ =~= seq![digit(d as nat)]);
    r
}

/// Appends `n` in decimal.
pub fn write_decimal(f: &mut String, n: usize)
    ensures
        final(f)@ == old(f)@ + decimal(n as nat),
    decreases n,
{
    if n >= 10 {
        write_decimal(f, n / 10);
    }
    f.append(digit_str(n % 10));
    assert(f@ =~= old(f)@ + decimal(n as nat));
}

/// Appends `shape` as a bracketed list.
pub fn write_shape(f: &mut String, shape: &Vec<usize>)
    ensures
        final(f)@ == old(f)@ + shape_text(shape@),
{
    proof {
        reveal_strlit("[");
        reveal_strlit("]");
        reveal_strlit(", ");
    }
    f.append("[");
    let ghost open = f@;
    let mut i: usize = 0;
    assert(f@ =~= open + extent_list(shape@, 0));
    while i < shape.len()
        invariant
            i <= shape.len(),
            ", "@ == seq![',', ' '],
            f@ == open + extent_list(shape@, i as int),
        decreases shape.len() - i,
    {
        if i > 0 {
            f.append(", ");
        }
        write_decimal(f, shape[i]);
        i = i + 1;
        assert(f@ =~= open + extent_list(shape@, i as int));
    }
    f.append("]");
    assert(f@ =~= old(f)@ + shape_text(shape@));
}

} // verus!
