use ndarray::{arr1, arr2, arr3, ArrayBase, Data, Dimension};
use std::fmt::Display;
use vista::display_method::common::{
    display_impl, fmt_multiple_arrays, fmt_multiple_cells, recursive_format_arrays,
};
use vista::{CommaSeparated, DisplayArray, DisplayExt, DoubleJoined, Joined, Separated, TextArray};

fn cells_of<S, D>(array: &ArrayBase<S, D>) -> TextArray
where
    S: Data,
    S::Elem: Display,
    D: Dimension,
{
    let cells: Vec<String> = array.iter().map(|e| e.to_string()).collect();
    TextArray::from_shape_vec(&array.shape().to_vec(), cells).unwrap()
}

fn owned(items: &[&str]) -> Vec<String> {
    items.iter().map(|s| s.to_string()).collect()
}

#[test]
fn two_rows_side_by_side() {
    let a = cells_of(&arr1(&[1, 2, 3]));
    let b = cells_of(&arr1(&[4, 5, 6]));
    assert_eq!([&a, &b].display::<Separated>().to_string(), "1 2 3  4 5 6");
}

#[test]
fn three_rows_side_by_side_all_methods() {
    let a = cells_of(&arr1(&[1.0, 2.0, 3.0]));
    let b = cells_of(&arr1(&[4.0, 5.0, 6.0]));
    let c = cells_of(&arr1(&[7.0, 8.0, 9.0]));
    let arrs = [&a, &b, &c];
    assert_eq!(arrs.display::<Separated>().to_string(), "1 2 3  4 5 6  7 8 9");
    assert_eq!(arrs.display::<CommaSeparated>().to_string(), "1, 2, 3  4, 5, 6  7, 8, 9");
    assert_eq!(arrs.display::<Joined>().to_string(), "123  456  789");
    assert_eq!(arrs.display::<DoubleJoined>().to_string(), "112233  445566  778899");
}

#[test]
fn two_axes_side_by_side_with_own_widths() {
    let a = cells_of(&arr2(&[[1.0, 2.0], [3.0, 4.0]]));
    let b = cells_of(&arr2(&[[5.0, 6.0], [7.0, 8.0]]));
    let c = cells_of(&arr2(&[[9.0, 10.0], [11.0, 12.0]]));
    let arrs = [&a, &b, &c];
    assert_eq!(
        arrs.display::<Separated>().to_string(),
        "1 2  5 6   9 10\n3 4  7 8  11 12\n"
    );
    assert_eq!(
        arrs.display::<CommaSeparated>().to_string(),
        "1, 2  5, 6   9, 10\n3, 4  7, 8  11, 12\n"
    );
    assert_eq!(arrs.display::<Joined>().to_string(), "12  56  910\n34  78  1112\n");
    assert_eq!(
        arrs.display::<DoubleJoined>().to_string(),
        "1122  5566  991010\n3344  7788  11111212\n"
    );
}

#[test]
fn side_by_side_widths_count_characters() {
    let a = TextArray::from_shape_vec(&vec![1, 2], owned(&["\u{e9}", "a"])).unwrap();
    let b = TextArray::from_shape_vec(&vec![1, 2], owned(&["\u{e9}", "a"])).unwrap();
    let out = [&a, &b].display::<Separated>().to_string();
    assert_eq!(out, "\u{e9} a  \u{e9} a\n");
    assert_eq!(out.chars().count(), 9);
    let c = TextArray::from_shape_vec(&vec![2], owned(&["\u{30c0}", "xy"])).unwrap();
    let d = TextArray::from_shape_vec(&vec![2], owned(&["\u{e9}", "z"])).unwrap();
    assert_eq!([&c, &d].display::<CommaSeparated>().to_string(), " \u{30c0}, xy  \u{e9}, z");
}

#[test]
fn three_axes_side_by_side_blank_line_between_blocks() {
    let a = cells_of(&arr3(&[[[1, 2], [3, 4]], [[5, 6], [7, 8]]]));
    let b = cells_of(&arr3(&[[[9, 10], [11, 12]], [[13, 14], [15, 16]]]));
    assert_eq!(
        [&a, &b].display::<Joined>().to_string(),
        "12  910\n34  1112\n\n56  1314\n78  1516\n"
    );
    assert_eq!(
        [&a, &b].display::<Separated>().to_string(),
        "1 2   9 10\n3 4  11 12\n\n5 6  13 14\n7 8  15 16\n"
    );
}

#[test]
fn four_axes_side_by_side_one_blank_line_at_every_level() {
    let left: Vec<String> = (1..=16).map(|v| v.to_string()).collect();
    let right: Vec<String> = (1..=16).map(|v| ((b'a' + v as u8 - 1) as char).to_string()).collect();
    let a = TextArray::from_shape_vec(&vec![2, 2, 2, 2], left).unwrap();
    let b = TextArray::from_shape_vec(&vec![2, 2, 2, 2], right).unwrap();
    assert_eq!(
        [&a, &b].display::<Joined>().to_string(),
        "12  ab\n34  cd\n\n56  ef\n78  gh\n\n910  ij\n1112  kl\n\n1314  mn\n1516  op\n"
    );
}

#[test]
fn shape_mismatch_gives_the_message() {
    let a = cells_of(&arr2(&[[1, 2], [3, 4]]));
    let b = cells_of(&arr2(&[[1, 2, 3], [4, 5, 6]]));
    assert_eq!(
        [&a, &b].display::<Separated>().to_string(),
        "Error: Arrays have different shapes. Array 0 shape: [2, 2], Array 1 shape: [2, 3]"
    );
}

#[test]
fn shape_mismatch_names_the_first_array_that_differs() {
    let a = cells_of(&arr1(&[1, 2, 3]));
    let b = cells_of(&arr1(&[4, 5, 6]));
    let c = cells_of(&arr2(&[[1], [2], [3]]));
    let d = cells_of(&arr1(&[1]));
    assert_eq!(
        [&a, &b, &c, &d].display::<Joined>().to_string(),
        "Error: Arrays have different shapes. Array 0 shape: [3], Array 2 shape: [3, 1]"
    );
}

#[test]
fn shape_mismatch_with_a_two_digit_index() {
    let same = cells_of(&arr1(&[1, 2]));
    let other = TextArray::from_shape_vec(&Vec::new(), owned(&["0"])).unwrap();
    let mut arrays: Vec<&TextArray> = Vec::new();
    for _ in 0..12 {
        arrays.push(&same);
    }
    arrays.push(&other);
    let shown: DisplayArray<'_, CommaSeparated> = DisplayArray::new(arrays);
    assert_eq!(
        shown.to_string(),
        "Error: Arrays have different shapes. Array 0 shape: [2], Array 12 shape: []"
    );
}

#[test]
fn no_array_gives_no_text() {
    let shown: DisplayArray<'_, Separated> = DisplayArray::new(Vec::new());
    assert_eq!(shown.to_string(), "");
    let mut out = String::from("kept");
    fmt_multiple_arrays(&Vec::new(), &mut out, &Joined);
    assert_eq!(out, "kept");
}

#[test]
fn one_array_in_a_list_is_written_as_a_single_array() {
    let a = cells_of(&arr2(&[[1, 2], [3, 4]]));
    assert_eq!([&a].display::<Joined>().to_string(), "12\n34");
    let mut out = String::new();
    fmt_multiple_arrays(&vec![&a], &mut out, &Separated);
    assert_eq!(out, "1 2\n3 4");
}

#[test]
fn slice_of_arrays_displays_like_an_array_of_arrays() {
    let a = cells_of(&arr1(&[1, 2]));
    let b = cells_of(&arr1(&[30, 4]));
    let list = vec![&a, &b];
    let slice: &[&TextArray] = &list;
    assert_eq!(slice.display::<CommaSeparated>().to_string(), "1, 2  30,  4");
    assert_eq!(slice.display::<Separated>().arrays.len(), 2);
}

#[test]
fn display_impl_writes_to_the_sink() {
    let a = cells_of(&arr1(&[1, 2]));
    let b = cells_of(&arr1(&[3, 4]));
    let shown: DisplayArray<'_, DoubleJoined> = DisplayArray::new(vec![&a, &b]);
    let mut out = String::from(">");
    display_impl(&shown, &mut out, &DoubleJoined);
    assert_eq!(out, ">1122  3344");
}

#[test]
fn empty_rows_side_by_side() {
    let a = TextArray::from_shape_vec(&vec![2, 0], Vec::new()).unwrap();
    let b = TextArray::from_shape_vec(&vec![2, 0], Vec::new()).unwrap();
    assert_eq!([&a, &b].display::<Joined>().to_string(), "  \n  \n");
    let c = TextArray::from_shape_vec(&vec![0, 2], Vec::new()).unwrap();
    assert_eq!([&c, &c].display::<Joined>().to_string(), "");
    let d = TextArray::from_shape_vec(&vec![0], Vec::new()).unwrap();
    assert_eq!([&d, &d, &d].display::<Separated>().to_string(), "    ");
}

#[test]
fn arrays_without_axes_side_by_side_have_no_text() {
    let a = TextArray::from_shape_vec(&Vec::new(), owned(&["1"])).unwrap();
    let b = TextArray::from_shape_vec(&Vec::new(), owned(&["2"])).unwrap();
    assert_eq!([&a, &b].display::<Separated>().to_string(), "");
}

#[test]
fn multiple_cells_from_plain_values() {
    let shapes = vec![vec![2, 2], vec![2, 2]];
    let arrays = vec![owned(&["a", "b", "c", "d"]), owned(&["eee", "f", "g", "h"])];
    let mut out = String::new();
    fmt_multiple_cells(&shapes, &arrays, &mut out, &Separated);
    assert_eq!(out, "a b  eee   f\nc d    g   h\n");
    let mut message = String::new();
    fmt_multiple_cells(
        &vec![vec![1], vec![1], vec![1, 1]],
        &vec![owned(&["a"]), owned(&["b"]), owned(&["c"])],
        &mut message,
        &Separated,
    );
    assert_eq!(
        message,
        "Error: Arrays have different shapes. Array 0 shape: [1], Array 2 shape: [1, 1]"
    );
}

#[test]
fn recursive_descent_inside_a_chosen_block() {
    let arrays = vec![
        (1..=8).map(|v| v.to_string()).collect::<Vec<String>>(),
        (11..=18).map(|v| v.to_string()).collect::<Vec<String>>(),
    ];
    let widths = vec![1, 2];
    let shape = vec![2, 2, 2];
    // the rows of the second outer block
    let mut indices = vec![1, 0, 0];
    let mut out = String::new();
    recursive_format_arrays(&mut out, &arrays, &widths, &shape, 1, &mut indices, &Separated);
    assert_eq!(out, "5 6  15 16\n7 8  17 18\n");
    // the chosen block is kept, the axes below it are left at their last index
    assert_eq!(indices, vec![1, 1, 1]);
    // the whole arrays
    let mut whole = String::new();
    recursive_format_arrays(&mut whole, &arrays, &widths, &shape, 0, &mut indices, &Joined);
    assert_eq!(whole, "12  1112\n34  1314\n\n56  1516\n78  1718\n");
    // the widths are taken as they are given
    let mut wide = String::new();
    recursive_format_arrays(&mut wide, &arrays, &vec![3, 0], &shape, 1, &mut indices, &Separated);
    assert_eq!(wide, "  5   6  15 16\n  7   8  17 18\n");
}

#[test]
fn recursive_descent_leaves_the_last_indices() {
    let cells: Vec<String> = (0..24).map(|v| v.to_string()).collect();
    let arrays = vec![cells];
    let widths = vec![2];
    let shape = vec![2, 3, 4];
    let mut indices = vec![7, 7, 7];
    let mut out = String::new();
    recursive_format_arrays(&mut out, &arrays, &widths, &shape, 0, &mut indices, &Joined);
    assert_eq!(indices, vec![1, 2, 3]);
    // without an array no element is read: the innermost index stays
    let none: Vec<Vec<String>> = Vec::new();
    let mut kept = vec![7, 7, 7];
    let mut lines = String::new();
    recursive_format_arrays(&mut lines, &none, &Vec::new(), &shape, 0, &mut kept, &Joined);
    assert_eq!(kept, vec![1, 2, 7]);
    assert_eq!(lines, "\n\n\n\n\n\n\n");
    // an empty axis stops the descent: the indices from it on stay
    let empty = vec![Vec::<String>::new()];
    let mut stopped = vec![7, 7, 7];
    let mut nothing = String::new();
    let hollow = vec![2, 0, 4];
    recursive_format_arrays(&mut nothing, &empty, &vec![0], &hollow, 0, &mut stopped, &Joined);
    assert_eq!(stopped, vec![1, 7, 7]);
    assert_eq!(nothing, "\n");
}
