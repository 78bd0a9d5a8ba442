use puzzle_kit::readings::EcoReading;

#[test]
fn test_parse_readings() {
    let reading = EcoReading::parse("0 3 -6 9");
    assert_eq!(reading.readings, vec![0, 3, -6, 9]);
}

#[test]
fn test_extrapolate_constant_slope() {
    let reading = EcoReading::parse("0 3 6 9 12 15");
    assert_eq!(reading.extrapolate_next_reading(), 18);
}

#[test]
fn test_extrapolate_second_order() {
    let reading = EcoReading::parse("1 3 6 10 15 21");
    assert_eq!(reading.extrapolate_next_reading(), 28);
}

#[test]
fn test_extrapolate_third_order() {
    let reading = EcoReading::parse("10 13 16 21 30 45");
    assert_eq!(reading.extrapolate_next_reading(), 68);
}
