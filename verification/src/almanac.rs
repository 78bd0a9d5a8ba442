//! An almanac of range translations: each mapping carries a list of
//! ranges that shift an interval of source numbers onto an interval of
//! destination numbers, and seven mappings chain a seed number through to
//! its location.

use crate::text::{digits_val, is_u32_token, parse_u32, split_by, split_char, split_once_at, str_eq};
use vstd::prelude::*;

verus! {

/// A failure to translate a number through a range.
#[derive(PartialEq, Eq, Structural, Clone, Copy, Debug)]
pub enum AlmanacError {
    /// The number lies outside the range.
    RangeError,
}

/// One translation range: `range_len` numbers starting at `source_start`
/// map onto the numbers starting at `destination_start`.
#[derive(Clone, Copy, Debug)]
pub struct AlmanacRange {
    pub destination_start: u32,
    pub source_start: u32,
    pub range_len: u32,
}

impl AlmanacRange {
    /// Both intervals of the range stay representable.
    pub open spec fn wf(self) -> bool {
        &&& self.source_start + self.range_len <= u32::MAX as int + 1
        &&& self.destination_start + self.range_len <= u32::MAX as int + 1
    }

    /// `x` lies in the source interval.
    pub open spec fn spec_in_range(self, x: u32) -> bool {
        self.source_start <= x && x < self.source_start + self.range_len
    }

    /// `x` lies in the destination interval.
    pub open spec fn spec_in_range_reverse(self, x: u32) -> bool {
        self.destination_start <= x && x < self.destination_start + self.range_len
    }

    /// Where the range sends an in-range source number.
    pub open spec fn spec_translate(self, x: u32) -> int {
        self.destination_start + x - self.source_start
    }

    /// Where the range fetches an in-range destination number from.
    pub open spec fn spec_translate_reverse(self, x: u32) -> int {
        self.source_start + x - self.destination_start
    }

    /// The line is three space-separated decimal numbers.
    pub open spec fn line_ok(s: Seq<char>) -> bool {
        let t = split_by(s, ' ');
        &&& t.len() == 3
        &&& is_u32_token(t[0])
        &&& is_u32_token(t[1])
        &&& is_u32_token(t[2])
    }

    /// The range a well-formed line denotes: destination start, source
    /// start, range length, in that order.
    pub open spec fn spec_parse(s: Seq<char>) -> AlmanacRange {
        let t = split_by(s, ' ');
        AlmanacRange {
            destination_start: digits_val(t[0]) as u32,
            source_start: digits_val(t[1]) as u32,
            range_len: digits_val(t[2]) as u32,
        }
    }

    /// Reads one range line of the almanac.
    pub fn parse(input: &str) -> (r: AlmanacRange)
        requires
            input.is_ascii(),
            Self::line_ok(input@),
        ensures
            r == Self::spec_parse(input@),
    {
        let parts = split_char(input, ' ');
        proof {
            assert(parts@.map_values(|t: &str| t@).len() == 3);
            assert(parts@.map_values(|t: &str| t@)[0] == parts@[0]@);
            assert(parts@.map_values(|t: &str| t@)[1] == parts@[1]@);
            assert(parts@.map_values(|t: &str| t@)[2] == parts@[2]@);
        }
        let destination_start = parse_u32(parts[0]).unwrap();
        let source_start = parse_u32(parts[1]).unwrap();
        let range_len = parse_u32(parts[2]).unwrap();
        AlmanacRange { destination_start, source_start, range_len }
    }

    /// Whether both of the range's intervals stay representable: callers
    /// of the translations check this first.
    pub fn check_wf(&self) -> (r: bool)
        ensures
            r == self.wf(),
    {
        (self.source_start as u64 + self.range_len as u64 <= u32::MAX as u64 + 1)
            && (self.destination_start as u64 + self.range_len as u64 <= u32::MAX as u64 + 1)
    }

    /// Whether `input` lies in the source interval.
    pub fn in_range(&self, input: &u32) -> (r: bool)
        ensures
            r == self.spec_in_range(*input),
    {
        let big_input: u64 = *input as u64;
        let big_range_end: u64 = self.source_start as u64 + self.range_len as u64;
        (*input >= self.source_start) && (big_input < big_range_end)
    }

    /// Whether `input` lies in the destination interval.
    pub fn in_range_reverse(&self, input: &u32) -> (r: bool)
        ensures
            r == self.spec_in_range_reverse(*input),
    {
        let big_input: u64 = *input as u64;
        let big_range_end: u64 = self.destination_start as u64 + self.range_len as u64;
        (*input >= self.destination_start) && (big_input < big_range_end)
    }

    /// Translates a source number, or reports that it lies outside the
    /// range.
    pub fn translate(&self, input: &u32) -> (r: Result<u32, AlmanacError>)
        requires
            self.wf(),
        ensures
            self.spec_in_range(*input) ==> r == Ok::<u32, AlmanacError>(
                self.spec_translate(*input) as u32,
            ),
            !self.spec_in_range(*input) ==> r == Err::<u32, AlmanacError>(
                AlmanacError::RangeError,
            ),
    {
        if self.in_range(input) {
            let offset: u32 = *input - self.source_start;
            return Ok(self.destination_start + offset);
        }
        Err(AlmanacError::RangeError)
    }

    /// Translates a destination number back, or reports that it lies
    /// outside the range.
    pub fn translate_reverse(&self, input: &u32) -> (r: Result<u32, AlmanacError>)
        requires
            self.wf(),
        ensures
            self.spec_in_range_reverse(*input) ==> r == Ok::<u32, AlmanacError>(
                self.spec_translate_reverse(*input) as u32,
            ),
            !self.spec_in_range_reverse(*input) ==> r == Err::<u32, AlmanacError>(
                AlmanacError::RangeError,
            ),
    {
        if self.in_range_reverse(input) {
            let offset: u32 = *input - self.destination_start;
            return Ok(self.source_start + offset);
        }
        Err(AlmanacError::RangeError)
    }
}

/// One almanac section: a list of ranges tried in order; a number no
/// range covers passes through unchanged.
#[derive(Clone, Debug)]
pub struct AlmanacMapping {
    pub range_maps: Vec<AlmanacRange>,
}

impl AlmanacMapping {
    /// Every range of the mapping is representable.
    pub open spec fn wf(self) -> bool {
        forall|i: int| 0 <= i < self.range_maps@.len() ==> (#[trigger] self.range_maps@[i]).wf()
    }

    /// The first range whose source interval covers `x` translates it;
    /// with no such range `x` passes through unchanged.
    pub open spec fn spec_lookup(rs: Seq<AlmanacRange>, x: u32) -> u32
        decreases rs.len(),
    {
        if rs.len() == 0 {
            x
        } else if rs[0].spec_in_range(x) {
            rs[0].spec_translate(x) as u32
        } else {
            Self::spec_lookup(rs.skip(1), x)
        }
    }

    /// The reverse reading: the first range whose destination interval
    /// covers `x` fetches its source; with no such range `x` passes
    /// through unchanged.
    pub open spec fn spec_lookup_reverse(rs: Seq<AlmanacRange>, x: u32) -> u32
        decreases rs.len(),
    {
        if rs.len() == 0 {
            x
        } else if rs[0].spec_in_range_reverse(x) {
            rs[0].spec_translate_reverse(x) as u32
        } else {
            Self::spec_lookup_reverse(rs.skip(1), x)
        }
    }

    /// Every line of the section body is a range line.
    pub open spec fn lines_ok(s: Seq<char>) -> bool {
        let ls = split_by(s, '\n');
        forall|i: int| 0 <= i < ls.len() ==> AlmanacRange::line_ok(#[trigger] ls[i])
    }

    /// The ranges a well-formed section body denotes, line by line.
    pub open spec fn spec_parse(s: Seq<char>) -> Seq<AlmanacRange> {
        split_by(s, '\n').map_values(|l: Seq<char>| AlmanacRange::spec_parse(l))
    }

    /// Reads one almanac section body: one range per line.
    pub fn parse(input: &str) -> (r: AlmanacMapping)
        requires
            input.is_ascii(),
            Self::lines_ok(input@),
        ensures
            r.range_maps@ == Self::spec_parse(input@),
    {
        let lines = split_char(input, '\n');
        let ghost line_views = lines@.map_values(|t: &str| t@);
        let mut parsed_maps: Vec<AlmanacRange> = Vec::new();
        let mut i: usize = 0;
        while i < lines.len()
            invariant
                line_views == lines@.map_values(|t: &str| t@),
                line_views == split_by(input@, '\n'),
                Self::lines_ok(input@),
                forall|j: int| 0 <= j < lines@.len() ==> (#[trigger] lines@[j]).is_ascii(),
                i <= lines@.len(),
                parsed_maps@.len() == i,
                forall|j: int|
                    0 <= j < i ==> #[trigger] parsed_maps@[j] == AlmanacRange::spec_parse(
                        line_views[j],
                    ),
            decreases lines@.len() - i,
        {
            proof {
                assert(line_views[i as int] == lines@[i as int]@);
            }
            parsed_maps.push(AlmanacRange::parse(lines[i]));
            i = i + 1;
        }
        proof {
            assert(parsed_maps@ =~= Self::spec_parse(input@));
        }
        AlmanacMapping { range_maps: parsed_maps }
    }

    /// Whether every range of the mapping is representable: callers of
    /// the translations check this first.
    pub fn check_wf(&self) -> (r: bool)
        ensures
            r == self.wf(),
    {
        let mut i: usize = 0;
        while i < self.range_maps.len()
            invariant
                i <= self.range_maps@.len(),
                forall|j: int| 0 <= j < i ==> (#[trigger] self.range_maps@[j]).wf(),
            decreases self.range_maps@.len() - i,
        {
            if !self.range_maps[i].check_wf() {
                return false;
            }
            i = i + 1;
        }
        true
    }

    /// Translates `input` through the first range that covers it.
    pub fn translate(&self, input: &u32) -> (r: u32)
        requires
            self.wf(),
        ensures
            r == Self::spec_lookup(self.range_maps@, *input),
    {
        let ghost all = self.range_maps@;
        let mut i: usize = 0;
        proof {
            assert(all.skip(0) =~= all);
        }
        while i < self.range_maps.len()
            invariant
                all == self.range_maps@,
                self.wf(),
                i <= all.len(),
                Self::spec_lookup(all, *input) == Self::spec_lookup(all.skip(i as int), *input),
                forall|j: int| 0 <= j < i ==> !(#[trigger] all[j]).spec_in_range(*input),
            decreases all.len() - i,
        {
            proof {
                assert(all.skip(i as int)[0] == all[i as int]);
                assert(all.skip(i as int).skip(1) =~= all.skip(i + 1));
            }
            let range = self.range_maps[i];
            if range.in_range(input) {
                return range.translate(input).unwrap();
            }
            i = i + 1;
        }
        // no range covered the input: it passes through unchanged
        *input
    }

    /// Translates `input` back through the first range that covers it.
    pub fn translate_reverse(&self, input: &u32) -> (r: u32)
        requires
            self.wf(),
        ensures
            r == Self::spec_lookup_reverse(self.range_maps@, *input),
    {
        let ghost all = self.range_maps@;
        let mut i: usize = 0;
        proof {
            assert(all.skip(0) =~= all);
        }
        while i < self.range_maps.len()
            invariant
                all == self.range_maps@,
                self.wf(),
                i <= all.len(),
                Self::spec_lookup_reverse(all, *input) == Self::spec_lookup_reverse(
                    all.skip(i as int),
                    *input,
                ),
                forall|j: int| 0 <= j < i ==> !(#[trigger] all[j]).spec_in_range_reverse(*input),
            decreases all.len() - i,
        {
            proof {
                assert(all.skip(i as int)[0] == all[i as int]);
                assert(all.skip(i as int).skip(1) =~= all.skip(i + 1));
            }
            let range = self.range_maps[i];
            if range.in_range_reverse(input) {
                return range.translate_reverse(input).unwrap();
            }
            i = i + 1;
        }
        *input
    }
}

/// The seven chained mappings of the almanac.
#[derive(Clone, Debug)]
pub struct Almanac {
    pub seed_2_soil: AlmanacMapping,
    pub soil_2_fertilizer: AlmanacMapping,
    pub fertilizer_2_water: AlmanacMapping,
    pub water_2_light: AlmanacMapping,
    pub light_2_temp: AlmanacMapping,
    pub temp_2_humid: AlmanacMapping,
    pub humid_2_loc: AlmanacMapping,
}

impl Almanac {
    /// Every mapping of the almanac is representable.
    pub open spec fn wf(self) -> bool {
        &&& self.seed_2_soil.wf()
        &&& self.soil_2_fertilizer.wf()
        &&& self.fertilizer_2_water.wf()
        &&& self.water_2_light.wf()
        &&& self.light_2_temp.wf()
        &&& self.temp_2_humid.wf()
        &&& self.humid_2_loc.wf()
    }

    /// A seed number chained through the seven mappings in order.
    pub open spec fn spec_seed_to_location(self, seed: u32) -> u32 {
        let step1 = AlmanacMapping::spec_lookup(self.seed_2_soil.range_maps@, seed);
        let step2 = AlmanacMapping::spec_lookup(self.soil_2_fertilizer.range_maps@, step1);
        let step3 = AlmanacMapping::spec_lookup(self.fertilizer_2_water.range_maps@, step2);
        let step4 = AlmanacMapping::spec_lookup(self.water_2_light.range_maps@, step3);
        let step5 = AlmanacMapping::spec_lookup(self.light_2_temp.range_maps@, step4);
        let step6 = AlmanacMapping::spec_lookup(self.temp_2_humid.range_maps@, step5);
        AlmanacMapping::spec_lookup(self.humid_2_loc.range_maps@, step6)
    }

    /// A location number chained back through the seven mappings in
    /// reverse order.
    pub open spec fn spec_location_to_seed(self, location: u32) -> u32 {
        let step1 = AlmanacMapping::spec_lookup_reverse(self.humid_2_loc.range_maps@, location);
        let step2 = AlmanacMapping::spec_lookup_reverse(self.temp_2_humid.range_maps@, step1);
        let step3 = AlmanacMapping::spec_lookup_reverse(self.light_2_temp.range_maps@, step2);
        let step4 = AlmanacMapping::spec_lookup_reverse(self.water_2_light.range_maps@, step3);
        let step5 = AlmanacMapping::spec_lookup_reverse(
            self.fertilizer_2_water.range_maps@,
            step4,
        );
        let step6 = AlmanacMapping::spec_lookup_reverse(self.soil_2_fertilizer.range_maps@, step5);
        AlmanacMapping::spec_lookup_reverse(self.seed_2_soil.range_maps@, step6)
    }

    /// Whether every mapping of the almanac is representable: callers of
    /// the translations check this first.
    pub fn check_wf(&self) -> (r: bool)
        ensures
            r == self.wf(),
    {
        self.seed_2_soil.check_wf() && self.soil_2_fertilizer.check_wf()
            && self.fertilizer_2_water.check_wf() && self.water_2_light.check_wf()
            && self.light_2_temp.check_wf() && self.temp_2_humid.check_wf()
            && self.humid_2_loc.check_wf()
    }

    /// Chains a seed through the seven mappings to its location.
    pub fn seed_to_location(&self, seed: &u32) -> (r: u32)
        requires
            self.wf(),
        ensures
            r == self.spec_seed_to_location(*seed),
    {
        let step1: u32 = self.seed_2_soil.translate(seed);
        let step2: u32 = self.soil_2_fertilizer.translate(&step1);
        let step3: u32 = self.fertilizer_2_water.translate(&step2);
        let step4: u32 = self.water_2_light.translate(&step3);
        let step5: u32 = self.light_2_temp.translate(&step4);
        let step6: u32 = self.temp_2_humid.translate(&step5);
        let step7: u32 = self.humid_2_loc.translate(&step6);
        step7
    }

    /// Chains a location back through the seven mappings to its seed.
    pub fn location_to_seed(&self, location: &u32) -> (r: u32)
        requires
            self.wf(),
        ensures
            r == self.spec_location_to_seed(*location),
    {
        let step1: u32 = self.humid_2_loc.translate_reverse(location);
        let step2: u32 = self.temp_2_humid.translate_reverse(&step1);
        let step3: u32 = self.light_2_temp.translate_reverse(&step2);
        let step4: u32 = self.water_2_light.translate_reverse(&step3);
        let step5: u32 = self.fertilizer_2_water.translate_reverse(&step4);
        let step6: u32 = self.soil_2_fertilizer.translate_reverse(&step5);
        let step7: u32 = self.seed_2_soil.translate_reverse(&step6);
        step7
    }
}

/// The blank-line separator between almanac sections.
pub open spec fn section_sep() -> Seq<char> {
    seq!['\n', '\n']
}

/// The sections of the almanac text: the pieces between blank lines.
pub open spec fn spec_sections(s: Seq<char>) -> Seq<Seq<char>>
    decreases s.len(),
    via spec_sections_decreases
{
    let i = crate::text::index_of_sub(s, section_sep());
    if i + 2 > s.len() {
        seq![s]
    } else {
        seq![s.take(i)] + spec_sections(s.skip(i + 2))
    }
}

#[via_fn]
proof fn spec_sections_decreases(s: Seq<char>) {
    crate::text::lemma_index_of_sub_bounds(s, section_sep());
}

/// The header of a section: its first line.
pub open spec fn section_header(sec: Seq<char>) -> Seq<char> {
    sec.take(crate::text::index_of(sec, '\n'))
}

/// The body of a section: everything after its first line.
pub open spec fn section_body(sec: Seq<char>) -> Seq<char> {
    sec.skip(crate::text::index_of(sec, '\n') + 1)
}

/// Some section carries the header.
pub open spec fn spec_has_section(sections: Seq<Seq<char>>, header: Seq<char>) -> bool
    decreases sections.len(),
{
    if sections.len() == 0 {
        false
    } else if section_header(sections.last()) == header {
        true
    } else {
        spec_has_section(sections.drop_last(), header)
    }
}

/// The body of the last section carrying the header.
pub open spec fn spec_section_for(sections: Seq<Seq<char>>, header: Seq<char>) -> Seq<char>
    decreases sections.len(),
{
    if sections.len() == 0 {
        Seq::empty()
    } else if section_header(sections.last()) == header {
        section_body(sections.last())
    } else {
        spec_section_for(sections.drop_last(), header)
    }
}

/// One slot of the section scan: absent exactly when no section seen so
/// far carries the header, otherwise the mapping of the last one that
/// does.
pub open spec fn slot_ok(
    slot: Option<AlmanacMapping>,
    sections: Seq<Seq<char>>,
    header: Seq<char>,
) -> bool {
    match slot {
        None => !spec_has_section(sections, header),
        Some(m) => spec_has_section(sections, header) && m.range_maps@
            == AlmanacMapping::spec_parse(spec_section_for(sections, header)),
    }
}

/// The almanac text is well formed: every section has a header line and
/// a body of range lines, and each of the seven mappings appears.
pub open spec fn almanac_text_ok(s: Seq<char>) -> bool {
    let secs = spec_sections(s);
    &&& forall|i: int|
        0 <= i < secs.len() ==> crate::text::index_of(#[trigger] secs[i], '\n') < secs[i].len()
    &&& forall|i: int|
        0 <= i < secs.len() ==> AlmanacMapping::lines_ok(section_body(#[trigger] secs[i]))
    &&& spec_has_section(secs, "seed-to-soil map:"@)
    &&& spec_has_section(secs, "soil-to-fertilizer map:"@)
    &&& spec_has_section(secs, "fertilizer-to-water map:"@)
    &&& spec_has_section(secs, "water-to-light map:"@)
    &&& spec_has_section(secs, "light-to-temperature map:"@)
    &&& spec_has_section(secs, "temperature-to-humidity map:"@)
    &&& spec_has_section(secs, "humidity-to-location map:"@)
}

impl Almanac {
    /// Reads the whole almanac: blank-line separated sections, each a
    /// header line over range lines, a later section of a header
    /// replacing an earlier one.
    pub fn parse(input: &str) -> (r: Almanac)
        requires
            input.is_ascii(),
            almanac_text_ok(input@),
        ensures
            ({
                let secs = spec_sections(input@);
                &&& r.seed_2_soil.range_maps@ == AlmanacMapping::spec_parse(
                    spec_section_for(secs, "seed-to-soil map:"@),
                )
                &&& r.soil_2_fertilizer.range_maps@ == AlmanacMapping::spec_parse(
                    spec_section_for(secs, "soil-to-fertilizer map:"@),
                )
                &&& r.fertilizer_2_water.range_maps@ == AlmanacMapping::spec_parse(
                    spec_section_for(secs, "fertilizer-to-water map:"@),
                )
                &&& r.water_2_light.range_maps@ == AlmanacMapping::spec_parse(
                    spec_section_for(secs, "water-to-light map:"@),
                )
                &&& r.light_2_temp.range_maps@ == AlmanacMapping::spec_parse(
                    spec_section_for(secs, "light-to-temperature map:"@),
                )
                &&& r.temp_2_humid.range_maps@ == AlmanacMapping::spec_parse(
                    spec_section_for(secs, "temperature-to-humidity map:"@),
                )
                &&& r.humid_2_loc.range_maps@ == AlmanacMapping::spec_parse(
                    spec_section_for(secs, "humidity-to-location map:"@),
                )
            }),
    {
        proof {
            reveal_strlit("\n\n");
            assert("\n\n"@ =~= section_sep());
        }
        let ghost all_sections = spec_sections(input@);
        let mut sections: Vec<&str> = Vec::new();
        let mut rest: &str = input;
        proof {
            assert(sections@.map_values(|t: &str| t@) + spec_sections(rest@) =~= spec_sections(
                input@,
            ));
        }
        loop
            invariant_except_break
                rest.is_ascii(),
                all_sections == spec_sections(input@),
                all_sections == sections@.map_values(|t: &str| t@) + spec_sections(rest@),
                forall|j: int| 0 <= j < sections@.len() ==> (#[trigger] sections@[j]).is_ascii(),
            ensures
                all_sections == sections@.map_values(|t: &str| t@),
                forall|j: int| 0 <= j < sections@.len() ==> (#[trigger] sections@[j]).is_ascii(),
            decreases rest@.len(),
        {
            proof {
                reveal_strlit("\n\n");
                assert("\n\n"@ =~= section_sep());
                crate::text::lemma_index_of_sub_bounds(rest@, section_sep());
            }
            match split_once_at(rest, "\n\n") {
                Some(pair) => {
                    proof {
                        assert(sections@.push(pair.0).map_values(|t: &str| t@)
                            =~= sections@.map_values(|t: &str| t@).push(pair.0@));
                        assert(sections@.map_values(|t: &str| t@).push(pair.0@) + spec_sections(
                            pair.1@,
                        ) =~= sections@.map_values(|t: &str| t@) + (seq![pair.0@]
                            + spec_sections(pair.1@)));
                    }
                    sections.push(pair.0);
                    rest = pair.1;
                },
                None => {
                    proof {
                        assert(spec_sections(rest@) == seq![rest@]);
                        assert(sections@.push(rest).map_values(|t: &str| t@)
                            =~= sections@.map_values(|t: &str| t@).push(rest@));
                        assert(sections@.map_values(|t: &str| t@).push(rest@)
                            =~= sections@.map_values(|t: &str| t@) + seq![rest@]);
                    }
                    sections.push(rest);
                    break ;
                },
            }
        }
        let ghost section_views = sections@.map_values(|t: &str| t@);
        let mut seed_2_soil: Option<AlmanacMapping> = None;
        let mut soil_2_fertilizer: Option<AlmanacMapping> = None;
        let mut fertilizer_2_water: Option<AlmanacMapping> = None;
        let mut water_2_light: Option<AlmanacMapping> = None;
        let mut light_2_temp: Option<AlmanacMapping> = None;
        let mut temp_2_humid: Option<AlmanacMapping> = None;
        let mut humid_2_loc: Option<AlmanacMapping> = None;
        let mut i: usize = 0;
        proof {
            assert(all_sections.take(0) =~= Seq::<Seq<char>>::empty());
        }
        while i < sections.len()
            invariant
                section_views == sections@.map_values(|t: &str| t@),
                section_views == all_sections,
                all_sections == spec_sections(input@),
                almanac_text_ok(input@),
                forall|j: int| 0 <= j < sections@.len() ==> (#[trigger] sections@[j]).is_ascii(),
                i <= sections@.len(),
                slot_ok(seed_2_soil, all_sections.take(i as int), "seed-to-soil map:"@),
                slot_ok(soil_2_fertilizer, all_sections.take(i as int), "soil-to-fertilizer map:"@),
                slot_ok(
                    fertilizer_2_water,
                    all_sections.take(i as int),
                    "fertilizer-to-water map:"@,
                ),
                slot_ok(water_2_light, all_sections.take(i as int), "water-to-light map:"@),
                slot_ok(light_2_temp, all_sections.take(i as int), "light-to-temperature map:"@),
                slot_ok(
                    temp_2_humid,
                    all_sections.take(i as int),
                    "temperature-to-humidity map:"@,
                ),
                slot_ok(humid_2_loc, all_sections.take(i as int), "humidity-to-location map:"@),
            decreases sections@.len() - i,
        {
            proof {
                reveal_strlit("\n");
                assert("\n"@ =~= seq!['\n']);
                assert(section_views[i as int] == sections@[i as int]@);
                assert(all_sections.take(i + 1).drop_last() =~= all_sections.take(i as int));
                assert(all_sections.take(i + 1).last() == all_sections[i as int]);
                crate::text::lemma_single_char_occurrence(sections@[i as int]@, '\n');
            }
            let (header, body) = split_once_at(sections[i], "\n").unwrap();
            proof {
                assert(header@ == section_header(all_sections[i as int]));
                assert(body@ == section_body(all_sections[i as int]));
                reveal_strlit("seed-to-soil map:");
                reveal_strlit("soil-to-fertilizer map:");
                reveal_strlit("fertilizer-to-water map:");
                reveal_strlit("water-to-light map:");
                reveal_strlit("light-to-temperature map:");
                reveal_strlit("temperature-to-humidity map:");
                reveal_strlit("humidity-to-location map:");
                // the two headers of equal length differ in their first
                // character
                assert("light-to-temperature map:"@ != "humidity-to-location map:"@) by {
                    assert("light-to-temperature map:"@[0] == 'l');
                    assert("humidity-to-location map:"@[0] == 'h');
                }
            }
            if str_eq(header, "seed-to-soil map:") {
                seed_2_soil = Some(AlmanacMapping::parse(body));
            } else if str_eq(header, "soil-to-fertilizer map:") {
                soil_2_fertilizer = Some(AlmanacMapping::parse(body));
            } else if str_eq(header, "fertilizer-to-water map:") {
                fertilizer_2_water = Some(AlmanacMapping::parse(body));
            } else if str_eq(header, "water-to-light map:") {
                water_2_light = Some(AlmanacMapping::parse(body));
            } else if str_eq(header, "light-to-temperature map:") {
                light_2_temp = Some(AlmanacMapping::parse(body));
            } else if str_eq(header, "temperature-to-humidity map:") {
                temp_2_humid = Some(AlmanacMapping::parse(body));
            } else if str_eq(header, "humidity-to-location map:") {
                humid_2_loc = Some(AlmanacMapping::parse(body));
            }
            i = i + 1;
        }
        proof {
            assert(all_sections.take(sections@.len() as int) =~= all_sections);
        }
        Almanac {
            seed_2_soil: seed_2_soil.unwrap(),
            soil_2_fertilizer: soil_2_fertilizer.unwrap(),
            fertilizer_2_water: fertilizer_2_water.unwrap(),
            water_2_light: water_2_light.unwrap(),
            light_2_temp: light_2_temp.unwrap(),
            temp_2_humid: temp_2_humid.unwrap(),
            humid_2_loc: humid_2_loc.unwrap(),
        }
    }
}

/// The line is the word `seeds:` followed by decimal seed numbers.
pub open spec fn seeds_line_ok(s: Seq<char>) -> bool {
    let t = split_by(s, ' ');
    forall|i: int| 1 <= i < t.len() ==> is_u32_token(#[trigger] t[i])
}

/// The seed numbers of a well-formed seeds line, in order.
pub open spec fn spec_seeds_of(s: Seq<char>) -> Seq<u32> {
    split_by(s, ' ').skip(1).map_values(|t: Seq<char>| digits_val(t) as u32)
}

/// Reads the seed list: every space-separated number after the label.
pub fn parse_seeds(input: &str) -> (r: Vec<u32>)
    requires
        input.is_ascii(),
        seeds_line_ok(input@),
    ensures
        r@ == spec_seeds_of(input@),
{
    let parts = split_char(input, ' ');
    let ghost part_views = parts@.map_values(|t: &str| t@);
    let mut seeds: Vec<u32> = Vec::new();
    let mut i: usize = 1;
    while i < parts.len()
        invariant
            part_views == parts@.map_values(|t: &str| t@),
            part_views == split_by(input@, ' '),
            seeds_line_ok(input@),
            forall|j: int| 0 <= j < parts@.len() ==> (#[trigger] parts@[j]).is_ascii(),
            1 <= i <= parts@.len() || (parts@.len() == 0 && i == 1),
            seeds@.len() == i - 1,
            forall|j: int|
                0 <= j < i - 1 ==> #[trigger] seeds@[j] == digits_val(part_views[j + 1]) as u32,
        decreases parts@.len() - i,
    {
        proof {
            assert(part_views[i as int] == parts@[i as int]@);
        }
        seeds.push(parse_u32(parts[i]).unwrap());
        i = i + 1;
    }
    proof {
        assert(seeds@ =~= spec_seeds_of(input@));
    }
    seeds
}

/// The seed numbers paired up: each even-positioned number with the one
/// after it.
pub open spec fn spec_seed_pairs(s: Seq<char>) -> Seq<(u32, u32)> {
    let vals = spec_seeds_of(s);
    Seq::new((vals.len() / 2) as nat, |i: int| (vals[2 * i], vals[2 * i + 1]))
}

/// One pair inserted into a list sorted by pair starts: it lands before
/// the first pair with a larger start, after every pair with an equal
/// one.
pub open spec fn spec_sorted_insert(sorted: Seq<(u32, u32)>, p: (u32, u32)) -> Seq<(u32, u32)>
    decreases sorted.len(),
{
    if sorted.len() == 0 {
        seq![p]
    } else if p.0 < sorted[0].0 {
        seq![p] + sorted
    } else {
        seq![sorted[0]] + spec_sorted_insert(sorted.skip(1), p)
    }
}

/// The pairs sorted by their starts, insertion by insertion.
pub open spec fn spec_sort_pairs(ps: Seq<(u32, u32)>) -> Seq<(u32, u32)>
    decreases ps.len(),
{
    if ps.len() == 0 {
        seq![]
    } else {
        spec_sorted_insert(spec_sort_pairs(ps.drop_last()), ps.last())
    }
}

/// The seed numbers of one start/length pair, in order.
pub open spec fn spec_range_values(p: (u32, u32)) -> Seq<u32> {
    Seq::new(p.1 as nat, |i: int| (p.0 + i) as u32)
}

/// The seed numbers of a pair list, pair by pair.
pub open spec fn spec_expand(ps: Seq<(u32, u32)>) -> Seq<u32>
    decreases ps.len(),
{
    if ps.len() == 0 {
        seq![]
    } else {
        spec_range_values(ps[0]) + spec_expand(ps.skip(1))
    }
}

/// The total length of a pair list's ranges.
pub open spec fn spec_sum_ranges(ps: Seq<(u32, u32)>) -> int
    decreases ps.len(),
{
    if ps.len() == 0 {
        0
    } else {
        ps[0].1 + spec_sum_ranges(ps.skip(1))
    }
}

/// Range totals are never negative.
proof fn lemma_sum_ranges_nonneg(ps: Seq<(u32, u32)>)
    ensures
        spec_sum_ranges(ps) >= 0,
    decreases ps.len(),
{
    if ps.len() > 0 {
        lemma_sum_ranges_nonneg(ps.skip(1));
    }
}

/// The insertion position characterizes the sorted insert.
proof fn lemma_sorted_insert_at(sorted: Seq<(u32, u32)>, p: (u32, u32), pos: int)
    requires
        0 <= pos <= sorted.len(),
        forall|j: int| 0 <= j < pos ==> (#[trigger] sorted[j]).0 <= p.0,
        pos < sorted.len() ==> sorted[pos].0 > p.0,
    ensures
        spec_sorted_insert(sorted, p) == sorted.take(pos) + seq![p] + sorted.skip(pos),
    decreases pos,
{
    if sorted.len() == 0 {
        assert(sorted.take(0) + seq![p] + sorted.skip(0) =~= seq![p]);
    } else if pos == 0 {
        assert(sorted.take(0) + seq![p] + sorted.skip(0) =~= seq![p] + sorted);
    } else {
        assert(sorted[0].0 <= p.0);
        assert forall|j: int| 0 <= j < pos - 1 implies (#[trigger] sorted.skip(1)[j]).0
            <= p.0 by {
            assert(sorted.skip(1)[j] == sorted[j + 1]);
        }
        if pos - 1 < sorted.skip(1).len() {
            assert(sorted.skip(1)[pos - 1] == sorted[pos]);
        }
        lemma_sorted_insert_at(sorted.skip(1), p, pos - 1);
        assert(seq![sorted[0]] + (sorted.skip(1).take(pos - 1) + seq![p] + sorted.skip(1).skip(
            pos - 1,
        )) =~= sorted.take(pos) + seq![p] + sorted.skip(pos));
    }
}

/// Reads the seed list as start/length pairs, sorts the pairs by start,
/// and expands each into its run of seed numbers, in order.
pub fn parse_seeds_as_ranges(input: &str) -> (r: Vec<u32>)
    requires
        input.is_ascii(),
        seeds_line_ok(input@),
        spec_seeds_of(input@).len() % 2 == 0,
        forall|i: int|
            0 <= i < spec_sort_pairs(spec_seed_pairs(input@)).len() ==> (#[trigger] spec_sort_pairs(
                spec_seed_pairs(input@),
            )[i]).0 + spec_sort_pairs(spec_seed_pairs(input@))[i].1 <= u32::MAX,
        spec_sum_ranges(spec_sort_pairs(spec_seed_pairs(input@))) <= u32::MAX,
    ensures
        r@ == spec_expand(spec_sort_pairs(spec_seed_pairs(input@))),
{
    let seeds = parse_seeds(input);
    let ghost pairs = spec_seed_pairs(input@);
    // chunk the flat list into start/length pairs
    let mut seed_pairs: Vec<(u32, u32)> = Vec::new();
    let mut i: usize = 0;
    while i + 1 < seeds.len()
        invariant
            seeds@ == spec_seeds_of(input@),
            seeds@.len() % 2 == 0,
            pairs == spec_seed_pairs(input@),
            i % 2 == 0,
            i <= seeds@.len(),
            seed_pairs@.len() == i / 2,
            forall|j: int| 0 <= j < i / 2 ==> #[trigger] seed_pairs@[j] == pairs[j],
        decreases seeds@.len() - i,
    {
        seed_pairs.push((seeds[i], seeds[i + 1]));
        i = i + 2;
    }
    proof {
        assert(seed_pairs@ =~= pairs);
    }
    // sort the pairs by their starts
    let ghost sorted_spec = spec_sort_pairs(pairs);
    let mut sorted: Vec<(u32, u32)> = Vec::new();
    let mut t: usize = 0;
    proof {
        assert(pairs.take(0) =~= Seq::<(u32, u32)>::empty());
    }
    while t < seed_pairs.len()
        invariant
            seed_pairs@ == pairs,
            t <= pairs.len(),
            sorted@ == spec_sort_pairs(pairs.take(t as int)),
        decreases pairs.len() - t,
    {
        proof {
            assert(pairs.take(t + 1).drop_last() =~= pairs.take(t as int));
            assert(pairs.take(t + 1).last() == pairs[t as int]);
        }
        let p = seed_pairs[t];
        let mut pos: usize = 0;
        while pos < sorted.len() && sorted[pos].0 <= p.0
            invariant
                pos <= sorted@.len(),
                forall|j: int| 0 <= j < pos ==> (#[trigger] sorted@[j]).0 <= p.0,
            decreases sorted@.len() - pos,
        {
            pos = pos + 1;
        }
        proof {
            lemma_sorted_insert_at(sorted@, p, pos as int);
        }
        sorted.insert(pos, p);
        proof {
            assert(sorted@ =~= spec_sort_pairs(pairs.take(t as int)).take(pos as int) + seq![p]
                + spec_sort_pairs(pairs.take(t as int)).skip(pos as int));
        }
        t = t + 1;
    }
    proof {
        assert(pairs.take(pairs.len() as int) =~= pairs);
        assert(sorted@ == sorted_spec);
        lemma_sum_ranges_nonneg(sorted_spec);
    }
    // pre-allocate for the seeds of every range
    let mut size_needed: u32 = 0;
    let mut c: usize = 0;
    proof {
        assert(sorted_spec.skip(0) =~= sorted_spec);
    }
    while c < sorted.len()
        invariant
            sorted@ == sorted_spec,
            spec_sum_ranges(sorted_spec) <= u32::MAX,
            c <= sorted_spec.len(),
            size_needed + spec_sum_ranges(sorted_spec.skip(c as int)) == spec_sum_ranges(
                sorted_spec,
            ),
        decreases sorted_spec.len() - c,
    {
        proof {
            assert(sorted_spec.skip(c as int)[0] == sorted_spec[c as int]);
            assert(sorted_spec.skip(c as int).skip(1) =~= sorted_spec.skip(c + 1));
            lemma_sum_ranges_nonneg(sorted_spec.skip(c + 1));
        }
        size_needed = size_needed + sorted[c].1;
        c = c + 1;
    }
    let mut all_seeds: Vec<u32> = Vec::with_capacity(size_needed as usize);
    let mut k: usize = 0;
    proof {
        assert(all_seeds@ + spec_expand(sorted_spec.skip(0)) =~= spec_expand(sorted_spec));
    }
    while k < sorted.len()
        invariant
            sorted@ == sorted_spec,
            forall|j: int|
                0 <= j < sorted_spec.len() ==> (#[trigger] sorted_spec[j]).0 + sorted_spec[j].1
                    <= u32::MAX,
            k <= sorted_spec.len(),
            spec_expand(sorted_spec) == all_seeds@ + spec_expand(sorted_spec.skip(k as int)),
        decreases sorted_spec.len() - k,
    {
        proof {
            assert(sorted_spec.skip(k as int)[0] == sorted_spec[k as int]);
            assert(sorted_spec.skip(k as int).skip(1) =~= sorted_spec.skip(k + 1));
        }
        let (sp_start, sp_range) = sorted[k];
        let ghost base = all_seeds@;
        let fin: u32 = sp_start + sp_range;
        let mut seed_num: u32 = sp_start;
        while seed_num < fin
            invariant
                fin == sp_start + sp_range,
                sp_start <= seed_num <= fin,
                all_seeds@ == base + spec_range_values((sp_start, sp_range)).take(
                    seed_num - sp_start,
                ),
            decreases fin - seed_num,
        {
            proof {
                let vals = spec_range_values((sp_start, sp_range));
                assert(vals.take(seed_num - sp_start + 1) =~= vals.take(seed_num - sp_start).push(
                    seed_num,
                ));
                assert((base + vals.take(seed_num - sp_start)).push(seed_num) =~= base + vals.take(
                    seed_num - sp_start + 1,
                ));
            }
            all_seeds.push(seed_num);
            seed_num = seed_num + 1;
        }
        proof {
            let vals = spec_range_values((sp_start, sp_range));
            assert(vals.take(fin - sp_start) =~= vals);
            assert((base + vals) + spec_expand(sorted_spec.skip(k + 1)) =~= base + (vals
                + spec_expand(sorted_spec.skip(k + 1))));
        }
        k = k + 1;
    }
    proof {
        assert(spec_expand(sorted_spec.skip(sorted_spec.len() as int)) =~= Seq::<u32>::empty());
        assert(all_seeds@ + Seq::<u32>::empty() =~= all_seeds@);
    }
    all_seeds
}

} // verus!
