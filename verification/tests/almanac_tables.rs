use puzzle_kit::almanac::{
    parse_seeds, parse_seeds_as_ranges, Almanac, AlmanacError, AlmanacMapping, AlmanacRange,
};

#[test]
fn test_range_parse() {
    let range = AlmanacRange::parse("50 98 2");
    assert_eq!(range.destination_start, 50);
    assert_eq!(range.source_start, 98);
    assert_eq!(range.range_len, 2);
}

#[test]
fn test_range_bounds() {
    let range = AlmanacRange::parse("50 98 2");
    assert!(range.in_range(&98));
    assert!(range.in_range(&99));
    assert!(!range.in_range(&97));
    assert!(!range.in_range(&100));
    assert!(range.in_range_reverse(&50));
    assert!(range.in_range_reverse(&51));
    assert!(!range.in_range_reverse(&52));
}

#[test]
fn test_range_translate() {
    let range = AlmanacRange::parse("50 98 2");
    assert_eq!(range.translate(&98), Ok(50));
    assert_eq!(range.translate(&99), Ok(51));
    assert_eq!(range.translate(&10), Err(AlmanacError::RangeError));
    assert_eq!(range.translate_reverse(&51), Ok(99));
    assert_eq!(range.translate_reverse(&99), Err(AlmanacError::RangeError));
}

#[test]
fn test_mapping_translate() {
    let mapping = AlmanacMapping::parse("50 98 2\n52 50 48");
    assert!(mapping.check_wf());
    // the first covering range translates
    assert_eq!(mapping.translate(&98), 50);
    assert_eq!(mapping.translate(&53), 55);
    // an uncovered number passes through unchanged
    assert_eq!(mapping.translate(&10), 10);
    // and the reverse reading undoes the forward one
    assert_eq!(mapping.translate_reverse(&50), 98);
    assert_eq!(mapping.translate_reverse(&55), 53);
    assert_eq!(mapping.translate_reverse(&10), 10);
}

#[test]
fn test_seed_to_location() {
    let identity = || AlmanacMapping::parse("0 0 0");
    let almanac = Almanac {
        seed_2_soil: AlmanacMapping::parse("50 98 2\n52 50 48"),
        soil_2_fertilizer: identity(),
        fertilizer_2_water: identity(),
        water_2_light: identity(),
        light_2_temp: identity(),
        temp_2_humid: identity(),
        humid_2_loc: AlmanacMapping::parse("60 56 37"),
    };
    assert!(almanac.check_wf());
    // seed 79 becomes soil 81, which rides through to location 85
    assert_eq!(almanac.seed_to_location(&79), 85);
    assert_eq!(almanac.location_to_seed(&85), 79);
}

#[test]
fn test_parse_seeds() {
    assert_eq!(parse_seeds("seeds: 79 14 55 13"), vec![79, 14, 55, 13]);
}

#[test]
fn test_parse_seeds_as_ranges() {
    // pairs are sorted by their starts before expansion
    assert_eq!(
        parse_seeds_as_ranges("seeds: 5 3 1 2"),
        vec![1, 2, 5, 6, 7]
    );
}

#[test]
fn test_almanac_parse() {
    let text = "seed-to-soil map:\n50 98 2\n52 50 48\n\n\
soil-to-fertilizer map:\n0 15 37\n37 52 2\n39 0 15\n\n\
fertilizer-to-water map:\n49 53 8\n0 11 42\n42 0 7\n57 7 4\n\n\
water-to-light map:\n88 18 7\n18 25 70\n\n\
light-to-temperature map:\n45 77 23\n81 45 19\n68 64 13\n\n\
temperature-to-humidity map:\n0 69 1\n1 0 69\n\n\
humidity-to-location map:\n60 56 37\n56 93 4";
    let almanac = Almanac::parse(text);
    assert!(almanac.check_wf());
    // the classic worked example: seed 79 lands on location 82
    assert_eq!(almanac.seed_to_location(&79), 82);
    assert_eq!(almanac.seed_to_location(&14), 43);
    assert_eq!(almanac.seed_to_location(&55), 86);
    assert_eq!(almanac.seed_to_location(&13), 35);
    assert_eq!(almanac.location_to_seed(&82), 79);
}
