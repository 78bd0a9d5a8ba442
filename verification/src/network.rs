//! A desert network: a repeating sequence of left/right turns, and a map
//! of junctions that names the destination of each turn.

use crate::text::{has_sub, index_of_sub, split_by, split_char, split_once_at};
use vstd::prelude::*;

verus! {

/// One turn of the direction sequence.
#[derive(PartialEq, Eq, Structural, Clone, Copy, Debug)]
pub enum Turn {
    Right,
    Left,
}

/// The turn a direction character denotes.
pub open spec fn spec_turn_of(c: char) -> Turn {
    if c == 'L' {
        Turn::Left
    } else {
        Turn::Right
    }
}

/// The repeating sequence of turns, and a cursor over it.
#[derive(Clone, Debug)]
pub struct Directions {
    pub sequence: Vec<Turn>,
    pub counter: usize,
}

impl Directions {
    /// The cursor stands on the sequence.
    pub open spec fn wf(self) -> bool {
        self.sequence@.len() >= 1 && self.counter < self.sequence@.len()
    }

    /// Reads a nonempty line of `L` and `R` characters.
    pub fn parse(input: &str) -> (r: Directions)
        requires
            input.is_ascii(),
            input@.len() >= 1,
            forall|i: int| 0 <= i < input@.len() ==> (#[trigger] input@[i] == 'L' || input@[i] == 'R'),
        ensures
            r.sequence@ == input@.map_values(|c: char| spec_turn_of(c)),
            r.counter == 0,
            r.wf(),
    {
        let len = input.unicode_len();
        let mut parsed_turns: Vec<Turn> = Vec::new();
        let mut i: usize = 0;
        while i < len
            invariant
                input.is_ascii(),
                len == input@.len(),
                i <= len,
                parsed_turns@.len() == i,
                forall|k: int|
                    0 <= k < i ==> #[trigger] parsed_turns@[k] == spec_turn_of(input@[k]),
            decreases len - i,
        {
            let c = input.get_ascii(i) as char;
            proof {
                assert(input@[i as int] <= '\u{7f}');
                assert(c == input@[i as int]);
            }
            let turn = if c == 'L' {
                Turn::Left
            } else {
                Turn::Right
            };
            parsed_turns.push(turn);
            i = i + 1;
        }
        proof {
            assert(parsed_turns@ =~= input@.map_values(|c: char| spec_turn_of(c)));
        }
        Directions { sequence: parsed_turns, counter: 0 }
    }

    /// Returns the next move the system should do as prescribed by the
    /// sequence, advancing the cursor; the sequence repeats indefinitely.
    pub fn get_next_step(&mut self) -> (r: Turn)
        requires
            old(self).wf(),
        ensures
            r == old(self).sequence@[old(self).counter as int],
            final(self).sequence == old(self).sequence,
            final(self).counter == (old(self).counter + 1) as int % (
            old(self).sequence@.len() as int),
            final(self).wf(),
    {
        let next_move: usize = self.counter;
        proof {
            assert(vstd::std_specs::vec::spec_vec_len(&self.sequence) == self.sequence@.len());
        }
        self.counter = (self.counter + 1) % self.sequence.len();
        self.sequence[next_move]
    }

    /// Rewinds the cursor to the head of the sequence.
    pub fn reset(&mut self)
        ensures
            final(self).sequence == old(self).sequence,
            final(self).counter == 0,
    {
        self.counter = 0;
    }
}

/// One junction of the map: where a left and a right turn lead.
#[derive(Clone, Debug)]
pub struct Junction {
    pub left: String,
    pub right: String,
}

/// The junction map: node names with their junctions, each name held
/// once.
#[derive(Clone, Debug)]
pub struct JunctionMap {
    pub paths: Vec<(String, Junction)>,
}

/// The name/junction view of one map entry.
pub open spec fn entry_view(e: (String, Junction)) -> (Seq<char>, (Seq<char>, Seq<char>)) {
    (e.0@, (e.1.left@, e.1.right@))
}

/// The separator between a node name and its junction.
pub open spec fn name_sep() -> Seq<char> {
    seq![' ', '=', ' ']
}

/// The separator between the two destinations of a junction.
pub open spec fn dest_sep() -> Seq<char> {
    seq![',', ' ']
}

/// The node name of a map line: what stands before the equals sign.
pub open spec fn line_name(s: Seq<char>) -> Seq<char> {
    s.take(index_of_sub(s, name_sep()))
}

/// The parenthesized junction text of a map line, its brackets dropped.
pub open spec fn line_inner(s: Seq<char>) -> Seq<char> {
    let rest = s.skip(index_of_sub(s, name_sep()) + 3);
    rest.subrange(1, rest.len() - 1)
}

/// The left destination of a map line.
pub open spec fn line_left(s: Seq<char>) -> Seq<char> {
    line_inner(s).take(index_of_sub(line_inner(s), dest_sep()))
}

/// The right destination of a map line.
pub open spec fn line_right(s: Seq<char>) -> Seq<char> {
    line_inner(s).skip(index_of_sub(line_inner(s), dest_sep()) + 2)
}

/// The map line holds a name, an equals sign, and a bracketed pair.
pub open spec fn map_line_ok(s: Seq<char>) -> bool {
    &&& has_sub(s, name_sep())
    &&& s.skip(index_of_sub(s, name_sep()) + 3).len() >= 2
    &&& has_sub(line_inner(s), dest_sep())
}

/// The entries after reading one line: an existing entry of the same
/// name is replaced, a fresh name is appended.
pub open spec fn spec_upsert(
    m: Seq<(Seq<char>, (Seq<char>, Seq<char>))>,
    key: Seq<char>,
    val: (Seq<char>, Seq<char>),
) -> Seq<(Seq<char>, (Seq<char>, Seq<char>))>
    decreases m.len(),
{
    if m.len() == 0 {
        seq![(key, val)]
    } else if m[0].0 == key {
        seq![(key, val)] + m.skip(1)
    } else {
        seq![m[0]] + spec_upsert(m.skip(1), key, val)
    }
}

/// The entries after reading all of `lines` in order.
pub open spec fn spec_map_of(lines: Seq<Seq<char>>) -> Seq<(Seq<char>, (Seq<char>, Seq<char>))>
    decreases lines.len(),
{
    if lines.len() == 0 {
        seq![]
    } else {
        spec_upsert(
            spec_map_of(lines.drop_last()),
            line_name(lines.last()),
            (line_left(lines.last()), line_right(lines.last())),
        )
    }
}

/// The junction of the first entry named `key`.
pub open spec fn spec_find(
    m: Seq<(Seq<char>, (Seq<char>, Seq<char>))>,
    key: Seq<char>,
) -> Option<(Seq<char>, Seq<char>)>
    decreases m.len(),
{
    if m.len() == 0 {
        None
    } else if m[0].0 == key {
        Some(m[0].1)
    } else {
        spec_find(m.skip(1), key)
    }
}

impl JunctionMap {
    /// The entry view of the whole map.
    pub open spec fn entries(self) -> Seq<(Seq<char>, (Seq<char>, Seq<char>))> {
        self.paths@.map_values(|e: (String, Junction)| entry_view(e))
    }

    /// Reads the map section: one junction line per line of the input,
    /// a later line replacing an earlier one of the same name.
    pub fn parse(input: &str) -> (r: JunctionMap)
        requires
            input.is_ascii(),
            forall|i: int|
                0 <= i < split_by(input@, '\n').len() ==> map_line_ok(
                    #[trigger] split_by(input@, '\n')[i],
                ),
        ensures
            r.entries() == spec_map_of(split_by(input@, '\n')),
    {
        let lines = split_char(input, '\n');
        let ghost line_views = lines@.map_values(|t: &str| t@);
        let mut path_map = JunctionMap { paths: Vec::new() };
        let mut i: usize = 0;
        proof {
            assert(line_views.take(0) =~= Seq::<Seq<char>>::empty());
            assert(path_map.entries() =~= spec_map_of(line_views.take(0)));
        }
        while i < lines.len()
            invariant
                line_views == lines@.map_values(|t: &str| t@),
                line_views == split_by(input@, '\n'),
                forall|j: int| 0 <= j < line_views.len() ==> map_line_ok(#[trigger] line_views[j]),
                forall|j: int| 0 <= j < lines@.len() ==> (#[trigger] lines@[j]).is_ascii(),
                i <= lines@.len(),
                path_map.entries() == spec_map_of(line_views.take(i as int)),
            decreases lines@.len() - i,
        {
            proof {
                assert(line_views[i as int] == lines@[i as int]@);
                assert(line_views.take(i + 1).drop_last() =~= line_views.take(i as int));
                assert(line_views.take(i + 1).last() == line_views[i as int]);
            }
            let (junction_name, junction) = Self::parse_line(lines[i]);
            path_map.upsert(junction_name, junction);
            i = i + 1;
        }
        proof {
            assert(line_views.take(lines@.len() as int) =~= line_views);
        }
        path_map
    }

    /// Parses a line from the map section of the input.
    ///
    /// Expects the input to be in `AAA = (BBB, CCC)` form.
    pub fn parse_line(input: &str) -> (r: (String, Junction))
        requires
            input.is_ascii(),
            map_line_ok(input@),
        ensures
            r.0@ == line_name(input@),
            r.1.left@ == line_left(input@),
            r.1.right@ == line_right(input@),
    {
        proof {
            reveal_strlit(" = ");
            reveal_strlit(", ");
            assert(" = "@ =~= name_sep());
            assert(", "@ =~= dest_sep());
        }
        let (name_raw, junction_raw) = split_once_at(input, " = ").unwrap();
        let jlen = junction_raw.unicode_len();
        let inner = junction_raw.substring_ascii(1, jlen - 1);
        proof {
            assert(inner@ =~= line_inner(input@));
        }
        let (left_raw, right_raw) = split_once_at(inner, ", ").unwrap();
        let name = name_raw.to_owned();
        let left = left_raw.to_owned();
        let right = right_raw.to_owned();
        (name, Junction { left, right })
    }

    /// Stores one junction, replacing an entry of the same name.
    fn upsert(&mut self, name: String, junction: Junction)
        ensures
            final(self).entries() == spec_upsert(
                old(self).entries(),
                name@,
                (junction.left@, junction.right@),
            ),
    {
        let ghost before = self.entries();
        let mut i: usize = 0;
        proof {
            assert(before.take(0) =~= Seq::<(Seq<char>, (Seq<char>, Seq<char>))>::empty());
            assert(before.skip(0) =~= before);
            assert(before.take(0) + spec_upsert(before, name@, (junction.left@, junction.right@))
                =~= spec_upsert(before, name@, (junction.left@, junction.right@)));
        }
        while i < self.paths.len()
            invariant
                self == old(self),
                before == self.entries(),
                i <= self.paths@.len(),
                forall|j: int| 0 <= j < i ==> before[j].0 != name@,
                spec_upsert(before, name@, (junction.left@, junction.right@)) == before.take(
                    i as int,
                ) + spec_upsert(before.skip(i as int), name@, (junction.left@, junction.right@)),
            decreases self.paths@.len() - i,
        {
            proof {
                assert(before[i as int] == entry_view(self.paths@[i as int]));
                assert(before.skip(i as int)[0] == before[i as int]);
                assert(before.skip(i as int).skip(1) =~= before.skip(i + 1));
            }
            let found = crate::text::str_eq_total(self.paths[i].0.as_str(), name.as_str());
            if found {
                self.paths[i] = (name, junction);
                proof {
                    let after = self.entries();
                    assert(after =~= before.update(
                        i as int,
                        (before[i as int].0, (junction.left@, junction.right@)),
                    ));
                    assert(seq![(before[i as int].0, (junction.left@, junction.right@))]
                        + before.skip(i + 1) =~= after.skip(i as int));
                    assert(before.take(i as int) =~= after.take(i as int));
                    assert(after.take(i as int) + after.skip(i as int) =~= after);
                }
                return ;
            }
            proof {
                assert(before.take(i + 1) =~= before.take(i as int).push(before[i as int]));
                assert(before.take(i as int) + (seq![before[i as int]] + spec_upsert(
                    before.skip(i + 1),
                    name@,
                    (junction.left@, junction.right@),
                )) =~= before.take(i + 1) + spec_upsert(
                    before.skip(i + 1),
                    name@,
                    (junction.left@, junction.right@),
                ));
            }
            i = i + 1;
        }
        proof {
            assert(before.skip(before.len() as int) =~= Seq::<
                (Seq<char>, (Seq<char>, Seq<char>)),
            >::empty());
        }
        self.paths.push((name, junction));
        proof {
            assert(self.entries() =~= before.push(
                (name@, (junction.left@, junction.right@)),
            ));
            assert(before.take(before.len() as int) =~= before);
            assert(before + seq![(name@, (junction.left@, junction.right@))] =~= before.push(
                (name@, (junction.left@, junction.right@)),
            ));
        }
    }

    /// Returns the destination given the starting junction and the
    /// direction to go, or `None` for an unknown junction.
    pub fn get_destination(&self, current_loc: &String, direction: &Turn) -> (r: Option<String>)
        ensures
            ({
                match spec_find(self.entries(), current_loc@) {
                    None => r is None,
                    Some(dests) => r matches Some(d) && d@ == (if direction is Left {
                        dests.0
                    } else {
                        dests.1
                    }),
                }
            }),
    {
        let ghost all = self.entries();
        let mut i: usize = 0;
        proof {
            assert(all.skip(0) =~= all);
        }
        while i < self.paths.len()
            invariant
                all == self.entries(),
                i <= self.paths@.len(),
                spec_find(all, current_loc@) == spec_find(all.skip(i as int), current_loc@),
            decreases self.paths@.len() - i,
        {
            proof {
                assert(all[i as int] == entry_view(self.paths@[i as int]));
                assert(all.skip(i as int)[0] == all[i as int]);
                assert(all.skip(i as int).skip(1) =~= all.skip(i + 1));
            }
            if crate::text::str_eq_total(self.paths[i].0.as_str(), current_loc.as_str()) {
                let junction = &self.paths[i].1;
                return match direction {
                    Turn::Left => Some(junction.left.as_str().to_owned()),
                    Turn::Right => Some(junction.right.as_str().to_owned()),
                };
            }
            i = i + 1;
        }
        None
    }

    /// Returns the names of all junctions of the map, in storage order.
    pub fn get_all_nodes(&self) -> (r: Vec<String>)
        ensures
            r@.len() == self.paths@.len(),
            forall|i: int| 0 <= i < r@.len() ==> (#[trigger] r@[i])@ == self.entries()[i].0,
    {
        let mut nodes: Vec<String> = Vec::new();
        let mut i: usize = 0;
        while i < self.paths.len()
            invariant
                i <= self.paths@.len(),
                nodes@.len() == i,
                forall|j: int| 0 <= j < i ==> (#[trigger] nodes@[j])@ == self.entries()[j].0,
            decreases self.paths@.len() - i,
        {
            proof {
                assert(self.entries()[i as int] == entry_view(self.paths@[i as int]));
            }
            nodes.push(self.paths[i].0.as_str().to_owned());
            i = i + 1;
        }
        nodes
    }
}

/// The location names an endpoint of the journey.
pub open spec fn ends_with_z(loc: Seq<char>) -> bool {
    loc.len() >= 1 && loc.last() == 'Z'
}

/// The walk home: from `loc`, with the turn cursor at `counter`, follow
/// the map until a location ending in `Z`; the fuel bounds the walk, and
/// a walk that runs out of fuel or map reports zero steps.  Returns the
/// step count and the final cursor.
pub open spec fn spec_go_home(
    entries: Seq<(Seq<char>, (Seq<char>, Seq<char>))>,
    turns: Seq<Turn>,
    counter: int,
    loc: Seq<char>,
    steps: int,
    fuel: nat,
) -> (int, int)
    decreases fuel,
{
    if ends_with_z(loc) {
        (steps, counter)
    } else if fuel == 0 {
        (0, counter)
    } else {
        let next_counter = (counter + 1) % (turns.len() as int);
        match spec_find(entries, loc) {
            None => (0, next_counter),
            Some(dests) => spec_go_home(
                entries,
                turns,
                next_counter,
                if turns[counter] is Left {
                    dests.0
                } else {
                    dests.1
                },
                steps + 1,
                (fuel - 1) as nat,
            ),
        }
    }
}

/// Whether a location name ends in `Z`.
fn location_is_home(loc: &str) -> (r: bool)
    ensures
        r == ends_with_z(loc@),
{
    let n = loc.unicode_len();
    if n == 0 {
        return false;
    }
    loc.get_char(n - 1) == 'Z'
}

/// Takes a starting location, a map, and a direction set, and calculates
/// the number of steps needed to get to a `Z` location from the starting
/// location.  A walk that leaves the map reports zero steps, and so does
/// one still under way after a step per map entry and turn: such a walk
/// cycles and can never arrive.
pub fn go_home(
    starting_loc: &String,
    my_map: &JunctionMap,
    my_directions: &mut Directions,
) -> (r: u64)
    requires
        old(my_directions).wf(),
        my_map.paths@.len() * old(my_directions).sequence@.len() + 1 <= u64::MAX,
    ensures
        ({
            let full_fuel = (my_map.paths@.len() * old(my_directions).sequence@.len() + 1) as nat;
            let walk = spec_go_home(
                my_map.entries(),
                old(my_directions).sequence@,
                old(my_directions).counter as int,
                starting_loc@,
                0,
                full_fuel,
            );
            &&& r == walk.0
            &&& final(my_directions).counter == walk.1
            &&& final(my_directions).sequence == old(my_directions).sequence
        }),
{
    let ghost entries = my_map.entries();
    let ghost turns = my_directions.sequence@;
    let ghost start_counter = my_directions.counter as int;
    let seq_len: u64 = my_directions.sequence.len() as u64;
    let paths_len: u64 = my_map.paths.len() as u64;
    proof {
        assert(vstd::std_specs::vec::spec_vec_len(&my_directions.sequence)
            == my_directions.sequence@.len());
        assert(vstd::std_specs::vec::spec_vec_len(&my_map.paths) == my_map.paths@.len());
    }
    let mut fuel: u64 = paths_len * seq_len + 1;
    let ghost full_fuel = fuel as nat;
    let mut steps: u64 = 0;
    let mut current_location: String = starting_loc.as_str().to_owned();
    loop
        invariant
            my_directions.wf(),
            my_directions.sequence == old(my_directions).sequence,
            turns == my_directions.sequence@,
            entries == my_map.entries(),
            full_fuel == (my_map.paths@.len() * old(my_directions).sequence@.len() + 1) as nat,
            full_fuel <= u64::MAX,
            steps + fuel == full_fuel,
            spec_go_home(entries, turns, start_counter, starting_loc@, 0, full_fuel)
                == spec_go_home(
                entries,
                turns,
                my_directions.counter as int,
                current_location@,
                steps as int,
                fuel as nat,
            ),
            start_counter == old(my_directions).counter as int,
        decreases fuel,
    {
        if location_is_home(current_location.as_str()) {
            return steps;
        }
        if fuel == 0 {
            return 0;
        }
        let turn = my_directions.get_next_step();
        let destination = my_map.get_destination(&current_location, &turn);
        match destination {
            Some(destination_name) => {
                current_location = destination_name;
                steps = steps + 1;
                fuel = fuel - 1;
            },
            None => {
                return 0;
            },
        }
    }
}

} // verus!
