use interhlx::extract::{coord_tokens, find_position_fields, location_of_index, select_window};

fn atom_line(name: &str, res: i32, x: f64, y: f64, z: f64) -> String {
    format!("ATOM        {name}      {res:4}    {x:8.3}{y:8.3}{z:8.3}")
}

fn backbone_residue(text: &mut String, res: i32, x: f64, y: f64, z: f64) {
    for name in [" N  ", " CA ", " C  "] {
        text.push_str(&atom_line(name, res, x, y, z));
        text.push('\n');
    }
}

/// The averaged point of one terminus, computed as the pipeline computes it:
/// collect the window's coordinate fields, read them as numbers, keep at most
/// ten, and divide the component sums by the constant ten.
fn terminus(contents: &str, residue: &str, index: i32) -> (f64, f64, f64) {
    let fields = find_position_fields(residue, index, contents).unwrap();
    let location = location_of_index(index);
    let mut points: Vec<(f64, f64, f64)> = Vec::new();
    for field in &fields {
        let tokens = coord_tokens(field);
        assert!(tokens.len() >= 3);
        points.push((
            tokens[0].parse().unwrap(),
            tokens[1].parse().unwrap(),
            tokens[2].parse().unwrap(),
        ));
    }
    let selected = select_window(points, &location);
    let mut sum = (0.0, 0.0, 0.0);
    for p in &selected {
        sum.0 += p.0;
        sum.1 += p.1;
        sum.2 += p.2;
    }
    (sum.0 / 10.0, sum.1 / 10.0, sum.2 / 10.0)
}

fn normalize(v: (f64, f64, f64)) -> (f64, f64, f64) {
    let mag = (v.0 * v.0 + v.1 * v.1 + v.2 * v.2).sqrt();
    (v.0 / mag, v.1 / mag, v.2 / mag)
}

fn angle_degrees(v1: (f64, f64, f64), v2: (f64, f64, f64)) -> f64 {
    let v1 = normalize(v1);
    let v2 = normalize(v2);
    (v1.0 * v2.0 + v1.1 * v2.1 + v1.2 * v2.2).acos().to_degrees()
}

#[test]
fn perpendicular_helices_cross_at_ninety_degrees() {
    let mut text = String::new();
    // One straight helix along the x axis, one along the y axis.
    for res in 10..=20 {
        backbone_residue(&mut text, res, res as f64, 0.0, 0.0);
    }
    for res in 30..=40 {
        backbone_residue(&mut text, res, 0.0, res as f64, 5.0);
    }
    let v1_tail = terminus(&text, "10", 1);
    let v1_head = terminus(&text, "20", 2);
    let v2_tail = terminus(&text, "30", 3);
    let v2_head = terminus(&text, "40", 4);
    let v1 = (v1_tail.0 - v1_head.0, v1_tail.1 - v1_head.1, v1_tail.2 - v1_head.2);
    let v2 = (v2_tail.0 - v2_head.0, v2_tail.1 - v2_head.1, v2_tail.2 - v2_head.2);
    let angle = angle_degrees(v1, v2);
    assert!((angle - 90.0).abs() < 1e-9);
    assert_eq!(format!("{:.3}", angle), "90.000");
}

#[test]
fn head_window_averages_first_ten_points() {
    let mut text = String::new();
    for res in 10..=20 {
        backbone_residue(&mut text, res, res as f64, 0.0, 0.0);
    }
    // Twelve candidate points; the first ten are 10,10,10,11,11,11,12,12,12,13.
    let point = terminus(&text, "10", 1);
    assert!((point.0 - 11.2).abs() < 1e-12);
    assert!(point.1.abs() < 1e-12);
}

#[test]
fn sparse_terminus_still_divides_by_ten() {
    let mut text = String::new();
    // Only two residues of the window carry atoms: six points in all.
    backbone_residue(&mut text, 10, 2.0, 4.0, 6.0);
    backbone_residue(&mut text, 11, 2.0, 4.0, 6.0);
    let point = terminus(&text, "10", 1);
    // The sum of six equal points is divided by ten, not by six.
    assert!((point.0 - 1.2).abs() < 1e-12);
    assert!((point.1 - 2.4).abs() < 1e-12);
    assert!((point.2 - 3.6).abs() < 1e-12);
    assert!((point.0 - 2.0).abs() > 0.5);
}
