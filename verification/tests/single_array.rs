use ndarray::{arr1, arr2, arr3, Array4, ArrayBase, Data, Dimension};
use std::fmt::Display;
use vista::display_method::common::{fmt_single_array, fmt_single_cells};
use vista::{CommaSeparated, DisplayExt, DoubleJoined, Joined, Separated, TextArray};

fn texts_of<S, D>(array: &ArrayBase<S, D>) -> TextArray
where
    S: Data,
    S::Elem: Display,
    D: Dimension,
{
    let cells: Vec<String> = array.iter().map(|e| e.to_string()).collect();
    TextArray::from_shape_vec(&array.shape().to_vec(), cells).unwrap()
}

fn strings(items: &[&str]) -> Vec<String> {
    items.iter().map(|s| s.to_string()).collect()
}

#[test]
fn one_axis_separated() {
    let a = texts_of(&arr1(&[1.0, 2.0, 3.0]));
    assert_eq!(a.display::<Separated>().to_string(), "1 2 3");
}

#[test]
fn one_axis_comma_separated() {
    let a = texts_of(&arr1(&[1.0, 2.0, 3.0]));
    assert_eq!(a.display::<CommaSeparated>().to_string(), "1, 2, 3");
}

#[test]
fn one_axis_joined() {
    let a = texts_of(&arr1(&[1.0, 2.0, 3.0]));
    assert_eq!(a.display::<Joined>().to_string(), "123");
}

#[test]
fn one_axis_double_joined() {
    let a = texts_of(&arr1(&[1.0, 2.0, 3.0]));
    assert_eq!(a.display::<DoubleJoined>().to_string(), "112233");
}

#[test]
fn two_axes_joined_breaks_between_rows() {
    let a = texts_of(&arr2(&[[1, 2], [3, 4]]));
    assert_eq!(a.display::<Joined>().to_string(), "12\n34");
}

#[test]
fn two_axes_all_methods() {
    let a = texts_of(&arr2(&[[1.0, 2.0], [3.0, 4.0]]));
    assert_eq!(a.display::<Separated>().to_string(), "1 2\n3 4");
    assert_eq!(a.display::<CommaSeparated>().to_string(), "1, 2\n3, 4");
    assert_eq!(a.display::<Joined>().to_string(), "12\n34");
    assert_eq!(a.display::<DoubleJoined>().to_string(), "1122\n3344");
}

#[test]
fn newline_count_two_by_two() {
    let a = texts_of(&arr2(&[[1, 2], [3, 4]]));
    let out = a.display::<Joined>().to_string();
    assert_eq!(out.matches('\n').count(), 1);
}

#[test]
fn newline_count_two_by_two_by_two() {
    let a = texts_of(&arr3(&[[[1, 2], [3, 4]], [[5, 6], [7, 8]]]));
    let out = a.display::<Joined>().to_string();
    assert_eq!(out, "12\n34\n\n56\n78");
    // chunks of 4 and of 2 in 8 elements: (8 / 4 - 1) + (8 / 2 - 1)
    assert_eq!(out.matches('\n').count(), 4);
}

#[test]
fn three_axes_separated_keeps_separator_inside_a_block() {
    let a = texts_of(&arr3(&[
        [[1.0, 2.0], [3.0, 4.0]],
        [[5.0, 6.0], [7.0, 8.0]],
        [[9.0, 10.0], [11.0, 12.0]],
    ]));
    assert_eq!(
        a.display::<Separated>().to_string(),
        " 1  2 \n 3  4\n\n 5  6 \n 7  8\n\n 9 10 \n11 12"
    );
    assert_eq!(
        a.display::<CommaSeparated>().to_string(),
        " 1,  2, \n 3,  4\n\n 5,  6, \n 7,  8\n\n 9, 10, \n11, 12"
    );
    assert_eq!(a.display::<Joined>().to_string(), "12\n34\n\n56\n78\n\n910\n1112");
    assert_eq!(
        a.display::<DoubleJoined>().to_string(),
        "1122\n3344\n\n5566\n7788\n\n991010\n11111212"
    );
}

#[test]
fn four_axes_joined_stacks_line_breaks() {
    let values: Vec<f64> = (1..=16).map(|v| v as f64).collect();
    let a = texts_of(&Array4::from_shape_vec((2, 2, 2, 2), values).unwrap());
    assert_eq!(
        a.display::<Joined>().to_string(),
        "12\n34\n\n56\n78\n\n\n910\n1112\n\n1314\n1516"
    );
}

#[test]
fn columns_align_to_the_widest_element() {
    let a = texts_of(&arr1(&[1, 10, 100]));
    assert_eq!(a.display::<Separated>().to_string(), "  1  10 100");
    assert_eq!(a.display::<CommaSeparated>().to_string(), "  1,  10, 100");
    assert_eq!(a.display::<Joined>().to_string(), "110100");
}

#[test]
fn every_field_has_the_column_width() {
    let a = texts_of(&arr2(&[[-1.5, 22.0], [333.25, 4.0]]));
    let out = a.display::<CommaSeparated>().to_string();
    assert_eq!(out, "  -1.5,     22\n333.25,      4");
    for line in out.lines() {
        for field in line.split(", ") {
            assert_eq!(field.chars().count(), 6);
        }
    }
}

#[test]
fn width_counts_characters() {
    let a = TextArray::from_shape_vec(&vec![2], strings(&["\u{e9}", "ab"])).unwrap();
    assert_eq!(a.display::<Separated>().to_string(), " \u{e9} ab");
    let b = TextArray::from_shape_vec(&vec![2], strings(&["\u{30c0}", "a"])).unwrap();
    assert_eq!(b.display::<Separated>().to_string(), "\u{30c0} a");
    let c = TextArray::from_shape_vec(&vec![2], strings(&["\u{e9}", "a"])).unwrap();
    assert_eq!(c.display::<Separated>().to_string(), "\u{e9} a");
    assert_eq!(c.display::<CommaSeparated>().to_string(), "\u{e9}, a");
    let mixed = strings(&["\u{30c0}\u{30c0}\u{30c0}", "ab", "\u{e9}"]);
    let d = TextArray::from_shape_vec(&vec![3], mixed).unwrap();
    let out = d.display::<CommaSeparated>().to_string();
    assert_eq!(out, "\u{30c0}\u{30c0}\u{30c0},  ab,   \u{e9}");
    for field in out.split(", ") {
        assert_eq!(field.chars().count(), 3);
    }
}

#[test]
fn one_axis_has_one_separator_less_than_elements() {
    let a = texts_of(&arr1(&[5, 6, 7, 8, 9]));
    let spaced = a.display::<Separated>().to_string();
    assert_eq!(spaced, "5 6 7 8 9");
    assert_eq!(spaced.matches(' ').count(), 4);
    assert!(!spaced.contains('\n'));
    let commas = a.display::<CommaSeparated>().to_string();
    assert_eq!(commas.matches(", ").count(), 4);
    assert!(!commas.contains('\n'));
}

#[test]
fn single_element() {
    let a = texts_of(&arr1(&[42]));
    assert_eq!(a.display::<Separated>().to_string(), "42");
    assert_eq!(a.display::<CommaSeparated>().to_string(), "42");
    assert_eq!(a.display::<DoubleJoined>().to_string(), "4242");
}

#[test]
fn empty_array_has_no_text() {
    let a = TextArray::from_shape_vec(&vec![0], Vec::new()).unwrap();
    assert_eq!(a.display::<Separated>().to_string(), "");
    let b = TextArray::from_shape_vec(&vec![3, 0], Vec::new()).unwrap();
    assert_eq!(b.display::<Joined>().to_string(), "");
    let c = TextArray::from_shape_vec(&vec![0, 3], Vec::new()).unwrap();
    assert_eq!(c.display::<CommaSeparated>().to_string(), "");
}

#[test]
fn array_without_axes_has_no_text() {
    let a = TextArray::from_shape_vec(&Vec::new(), strings(&["7"])).unwrap();
    assert_eq!(a.display::<Separated>().to_string(), "");
    assert_eq!(a.display::<DoubleJoined>().to_string(), "");
}

#[test]
fn rendering_appends_to_the_sink() {
    let a = texts_of(&arr2(&[[1, 2], [3, 4]]));
    let mut out = String::from("x = ");
    fmt_single_array(&a, &mut out, &Separated);
    assert_eq!(out, "x = 1 2\n3 4");
    a.display::<Joined>().fmt(&mut out);
    assert_eq!(out, "x = 1 2\n3 412\n34");
}

#[test]
fn single_cells_from_plain_values() {
    let mut out = String::new();
    let cells = strings(&["a", "bb", "c", "d", "e", "fff"]);
    fmt_single_cells(&vec![2, 3], &cells, &mut out, &Separated);
    assert_eq!(out, "  a  bb   c\n  d   e fff");
    let mut doubled = String::new();
    fmt_single_cells(&vec![3, 1], &strings(&["x", "y", "z"]), &mut doubled, &DoubleJoined);
    assert_eq!(doubled, "xx\nyy\nzz");
}

#[test]
fn extent_of_one_repeats_the_line_break() {
    // shape [2, 1, 2]: the chunks of both outer axes end together
    let mut out = String::new();
    fmt_single_cells(&vec![2, 1, 2], &strings(&["1", "2", "3", "4"]), &mut out, &Joined);
    assert_eq!(out, "12\n\n34");
}

#[test]
fn rendering_twice_gives_the_same_text() {
    let a = texts_of(&arr3(&[[[1, 20], [300, 4]], [[5, 6], [7, 8000]]]));
    let shown = a.display::<CommaSeparated>();
    let first = shown.to_string();
    let second = shown.to_string();
    assert_eq!(first, second);
    assert_eq!(first, a.display::<CommaSeparated>().to_string());
}
