use puzzle_kit::schematic::{add_padding, Part, Schematic};

#[test]
fn test_add_padding() {
    let schematic = add_padding("12\n34");
    assert_eq!(schematic.row_len, 4);
    assert_eq!(
        schematic.raw,
        "....".to_string() + ".12." + ".34." + "...."
    );
}

#[test]
fn test_schematic_new() {
    let schematic = Schematic::new("......".to_string(), 3);
    assert_eq!(schematic.raw, "......");
    assert_eq!(schematic.row_len, 3);
}

#[test]
fn test_scan_for_parts() {
    let schematic = add_padding("1*2\n..3");
    let parts = schematic.scan_for_parts();
    assert_eq!(parts.len(), 3);
    assert_eq!(parts[0].number, 1);
    assert_eq!(parts[0].symbols, vec![('*', 7)]);
    assert_eq!(parts[1].number, 2);
    assert_eq!(parts[1].symbols, vec![('*', 7)]);
    // the star sits diagonally above the three
    assert_eq!(parts[2].number, 3);
    assert_eq!(parts[2].symbols, vec![('*', 7)]);

    let lonely = add_padding("4.\n..");
    let lonely_parts = lonely.scan_for_parts();
    assert_eq!(lonely_parts.len(), 1);
    assert_eq!(lonely_parts[0].number, 4);
    assert!(!lonely_parts[0].has_symbols());
}

#[test]
fn test_part_symbols() {
    let plain = Part { number: 5, symbols: vec![] };
    assert!(!plain.has_symbols());
    let touched = Part { number: 5, symbols: vec![('*', 7)] };
    assert!(touched.has_symbols());
}
