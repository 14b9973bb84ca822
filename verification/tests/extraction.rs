use interhlx::extract::{
    coord_tokens, find_position_fields, lines_of, location_of_index, residues_list, select_window,
    Location, ParseError,
};

fn atom_line(name: &str, res: i32, x: f64, y: f64, z: f64) -> String {
    format!("ATOM        {name}      {res:4}    {x:8.3}{y:8.3}{z:8.3}")
}

#[test]
fn odd_positions_are_heads_even_are_tails() {
    assert_eq!(location_of_index(1), Location::Head);
    assert_eq!(location_of_index(2), Location::Tail);
    assert_eq!(location_of_index(3), Location::Head);
    assert_eq!(location_of_index(4), Location::Tail);
}

#[test]
fn head_window_runs_forward_from_the_residue() {
    let window = residues_list("10", &Location::Head);
    assert_eq!(window, ["  10", "  11", "  12", "  13"]);
}

#[test]
fn tail_window_runs_backward_onto_the_residue() {
    let window = residues_list("20", &Location::Tail);
    assert_eq!(window, ["  17", "  18", "  19", "  20"]);
}

#[test]
fn windows_keep_the_fixed_column_width() {
    let window = residues_list("8", &Location::Head);
    assert_eq!(window, ["   8", "   9", "  10", "  11"]);
    let window = residues_list("1002", &Location::Tail);
    assert_eq!(window, [" 999", "1000", "1001", "1002"]);
}

#[test]
fn lines_split_at_newlines() {
    assert_eq!(lines_of("a\nbc\nd"), ["a", "bc", "d"]);
    assert_eq!(lines_of(""), Vec::<String>::new());
    assert_eq!(lines_of("one line"), ["one line"]);
}

#[test]
fn lines_strip_one_carriage_return_and_final_newline() {
    assert_eq!(lines_of("a\r\nb\r\n"), ["a", "b"]);
    assert_eq!(lines_of("a\nb\n"), ["a", "b"]);
    assert_eq!(lines_of("a\n\nb"), ["a", "", "b"]);
    // A carriage return stays unless a newline follows it.
    assert_eq!(lines_of("a\r"), ["a\r"]);
    assert_eq!(lines_of("a\rb\nc"), ["a\rb", "c"]);
}

#[test]
fn coordinate_fields_split_at_whitespace() {
    assert_eq!(coord_tokens("  12.001  -3.500   4.250"), ["12.001", "-3.500", "4.250"]);
    assert_eq!(coord_tokens("1 2 3"), ["1", "2", "3"]);
    assert_eq!(coord_tokens("   "), Vec::<String>::new());
    assert_eq!(coord_tokens(""), Vec::<String>::new());
}

#[test]
fn head_selection_keeps_the_first_ten() {
    let points: Vec<i32> = (0..12).collect();
    assert_eq!(select_window(points, &Location::Head), (0..10).collect::<Vec<i32>>());
    let points: Vec<i32> = (0..4).collect();
    assert_eq!(select_window(points, &Location::Head), vec![0, 1, 2, 3]);
}

#[test]
fn tail_selection_keeps_the_last_ten_reversed() {
    let points: Vec<i32> = (0..12).collect();
    assert_eq!(select_window(points, &Location::Tail), vec![11, 10, 9, 8, 7, 6, 5, 4, 3, 2]);
    let points: Vec<i32> = (0..3).collect();
    assert_eq!(select_window(points, &Location::Tail), vec![2, 1, 0]);
}

#[test]
fn qualifying_fields_come_back_in_file_order() {
    let mut text = String::new();
    text.push_str(&atom_line(" N  ", 10, 1.0, 2.0, 3.0));
    text.push('\n');
    // A side-chain atom of a window residue is passed over.
    text.push_str(&atom_line(" CB ", 10, 9.0, 9.0, 9.0));
    text.push('\n');
    // A backbone atom of a residue outside the window is passed over.
    text.push_str(&atom_line(" CA ", 55, 9.0, 9.0, 9.0));
    text.push('\n');
    // A record of another type is passed over.
    text.push_str("HETATM      O       12      1.000   1.000   1.000\n");
    text.push_str(&atom_line(" CA ", 13, 4.0, 5.0, 6.0));
    text.push('\n');
    let fields = find_position_fields("10", 1, &text).unwrap();
    assert_eq!(fields.len(), 2);
    assert_eq!(coord_tokens(&fields[0]), ["1.000", "2.000", "3.000"]);
    assert_eq!(coord_tokens(&fields[1]), ["4.000", "5.000", "6.000"]);
}

#[test]
fn tail_index_looks_below_the_residue() {
    let mut text = String::new();
    text.push_str(&atom_line(" C  ", 17, 1.0, 1.0, 1.0));
    text.push('\n');
    text.push_str(&atom_line(" C  ", 20, 2.0, 2.0, 2.0));
    text.push('\n');
    text.push_str(&atom_line(" C  ", 21, 9.0, 9.0, 9.0));
    text.push('\n');
    let fields = find_position_fields("20", 2, &text).unwrap();
    assert_eq!(fields.len(), 2);
}

#[test]
fn short_atom_records_are_fatal() {
    // An atom record that ends before the atom-name column.
    let text = "ATOM short\n";
    assert_eq!(find_position_fields("10", 1, text).unwrap_err(), ParseError::MalformedLine);
    // A qualifying record that ends inside the coordinate columns.
    let good = atom_line(" N  ", 10, 1.0, 2.0, 3.0);
    let text = format!("{}\n", &good[..40]);
    assert_eq!(find_position_fields("10", 1, &text).unwrap_err(), ParseError::MalformedLine);
    // A line too short to carry any record tag.
    let text = "AT\n";
    assert_eq!(find_position_fields("10", 1, text).unwrap_err(), ParseError::MalformedLine);
}

#[test]
fn non_numeric_residue_arguments_are_rejected() {
    assert_eq!(find_position_fields("ten", 1, "").unwrap_err(), ParseError::BadResidueNumber);
    // A residue whose window would leave 32 bits is rejected on either side.
    assert_eq!(
        find_position_fields("2147483647", 1, "").unwrap_err(),
        ParseError::BadResidueNumber
    );
    assert_eq!(
        find_position_fields("-2147483648", 2, "").unwrap_err(),
        ParseError::BadResidueNumber
    );
    // The widest windows that still fit are accepted; an empty file has no atoms.
    assert_eq!(find_position_fields("2147483644", 1, "").unwrap(), Vec::<String>::new());
    assert_eq!(find_position_fields("-2147483645", 2, "").unwrap(), Vec::<String>::new());
}

#[test]
fn harmless_other_lines_are_skipped() {
    let mut text = String::new();
    text.push_str("REMARK generated for a windowing check\n");
    text.push_str(&atom_line(" N  ", 12, 1.0, 2.0, 3.0));
    text.push('\n');
    text.push_str("TER                 \n");
    let fields = find_position_fields("10", 1, &text).unwrap();
    assert_eq!(fields.len(), 1);
}
