use vista::display_method::formatter::{write_default_separator, ElementFormatter};
use vista::shape::{chunk_sizes, flat_index_of, same_shape};
use vista::text::{
    measure_column, write_decimal, write_newline, write_padded, write_shape, write_spaces,
};
use vista::{CommaSeparated, DoubleJoined, Joined, Separated, TextArray};

fn words(items: &[&str]) -> Vec<String> {
    items.iter().map(|s| s.to_string()).collect()
}

#[test]
fn separated_element() {
    let mut out = String::new();
    Separated.format_element(&mut out, "7", 3, false);
    assert_eq!(out, "  7 ");
    Separated.format_element(&mut out, "42", 3, true);
    assert_eq!(out, "  7  42");
    Separated.format_element(&mut out, "12345", 3, true);
    assert_eq!(out, "  7  4212345");
}

#[test]
fn comma_separated_element() {
    let mut out = String::new();
    CommaSeparated.format_element(&mut out, "7", 3, false);
    assert_eq!(out, "  7, ");
    CommaSeparated.format_element(&mut out, "8", 0, true);
    assert_eq!(out, "  7, 8");
}

#[test]
fn joined_element_ignores_width_and_position() {
    let mut out = String::new();
    Joined.format_element(&mut out, "7", 5, false);
    Joined.format_element(&mut out, "8", 5, true);
    assert_eq!(out, "78");
}

#[test]
fn double_joined_element_is_written_twice() {
    let mut out = String::new();
    DoubleJoined.format_element(&mut out, "ab", 5, false);
    assert_eq!(out, "abab");
}

#[test]
fn array_separator_is_two_spaces() {
    let mut out = String::from("|");
    Separated.write_array_separator(&mut out);
    CommaSeparated.write_array_separator(&mut out);
    Joined.write_array_separator(&mut out);
    DoubleJoined.write_array_separator(&mut out);
    write_default_separator(&mut out);
    assert_eq!(out, "|          ");
}

#[test]
fn padding_and_spaces() {
    let mut out = String::new();
    write_padded(&mut out, "ab", 5);
    assert_eq!(out, "   ab");
    write_padded(&mut out, "abcdef", 5);
    assert_eq!(out, "   ababcdef");
    write_spaces(&mut out, 0);
    write_spaces(&mut out, 3);
    write_newline(&mut out);
    assert_eq!(out, "   ababcdef   \n");
}

#[test]
fn column_width_is_the_longest_length_in_characters() {
    assert_eq!(measure_column(&Vec::new()), 0);
    assert_eq!(measure_column(&words(&["a", "abc", "ab"])), 3);
    assert_eq!(measure_column(&words(&["\u{30c0}\u{30c0}", "abcde"])), 5);
    assert_eq!(measure_column(&words(&["\u{e9}", "a"])), 1);
    assert_eq!(measure_column(&words(&["\u{30c0}\u{30c0}\u{30c0}", "ab"])), 3);
    assert_eq!(measure_column(&words(&["", ""])), 0);
}

#[test]
fn decimal_numbers() {
    let mut out = String::new();
    write_decimal(&mut out, 0);
    out.push(' ');
    write_decimal(&mut out, 9);
    out.push(' ');
    write_decimal(&mut out, 10);
    out.push(' ');
    write_decimal(&mut out, 1234567890);
    out.push(' ');
    write_decimal(&mut out, usize::MAX);
    assert_eq!(out, format!("0 9 10 1234567890 {}", usize::MAX));
}

#[test]
fn shapes_as_lists() {
    let mut out = String::new();
    write_shape(&mut out, &Vec::new());
    write_shape(&mut out, &vec![7]);
    write_shape(&mut out, &vec![2, 30, 4]);
    assert_eq!(out, "[][7][2, 30, 4]");
    assert_eq!(out, format!("{:?}{:?}{:?}", Vec::<usize>::new(), vec![7], vec![2, 30, 4]));
}

#[test]
fn shapes_compare_by_extents() {
    assert!(same_shape(&vec![2, 3], &vec![2, 3]));
    assert!(!same_shape(&vec![2, 3], &vec![3, 2]));
    assert!(!same_shape(&vec![2, 3], &vec![2, 3, 1]));
    assert!(same_shape(&Vec::new(), &Vec::new()));
}

#[test]
fn chunk_sizes_multiply_the_inner_extents() {
    assert_eq!(chunk_sizes(&vec![2, 3, 4]), vec![12, 4]);
    assert_eq!(chunk_sizes(&vec![5]), Vec::<usize>::new());
    assert_eq!(chunk_sizes(&Vec::new()), Vec::<usize>::new());
    assert_eq!(chunk_sizes(&vec![0, 3, 2, 2]), vec![12, 4, 2]);
    assert_eq!(chunk_sizes(&vec![7, 0, 5]), vec![0, 5]);
}

#[test]
fn flat_index_is_row_major() {
    assert_eq!(flat_index_of(&vec![2, 3, 4], &vec![1, 2, 3]), 23);
    assert_eq!(flat_index_of(&vec![2, 3, 4], &vec![0, 0, 0]), 0);
    assert_eq!(flat_index_of(&vec![2, 3, 4], &vec![1, 0, 2]), 14);
    assert_eq!(flat_index_of(&vec![6], &vec![5]), 5);
    assert_eq!(flat_index_of(&Vec::new(), &Vec::new()), 0);
}

#[test]
fn array_needs_as_many_elements_as_its_shape_holds() {
    assert!(TextArray::from_shape_vec(&vec![2, 2], words(&["a", "b", "c", "d"])).is_some());
    assert!(TextArray::from_shape_vec(&vec![2, 2], words(&["a", "b", "c"])).is_none());
    assert!(TextArray::from_shape_vec(&vec![2, 2], words(&["a", "b", "c", "d", "e"])).is_none());
    assert!(TextArray::from_shape_vec(&vec![3, 0], Vec::new()).is_some());
    assert!(TextArray::from_shape_vec(&vec![3, 0], words(&["a"])).is_none());
    assert!(TextArray::from_shape_vec(&Vec::new(), words(&["a"])).is_some());
    assert!(TextArray::from_shape_vec(&Vec::new(), Vec::new()).is_none());
}

#[test]
fn array_refuses_a_shape_too_large_for_the_machine() {
    assert!(TextArray::from_shape_vec(&vec![usize::MAX, 2, 0], Vec::new()).is_none());
    assert!(TextArray::from_shape_vec(&vec![usize::MAX, 0], Vec::new()).is_none());
    assert!(TextArray::from_shape_vec(&vec![isize::MAX as usize, 0], Vec::new()).is_some());
}
