//! Toy boat races: for a race of a given duration, holding the button
//! for `t` milliseconds travels `t * (duration - t)` millimeters, and a
//! hold time wins when that beats the record distance.

use crate::text::{
    digits_val, index_of, is_u64_token, parse_u64, split_by, split_char, split_once_at,
    split_whitespace, split_ws, str_eq,
};
use vstd::prelude::*;

verus! {

/// One recorded race: its duration and its record distance.
#[derive(Clone, Copy, Debug)]
pub struct RaceRecord {
    pub time_ms: u64,
    pub distance_mm: u64,
}

impl RaceRecord {
    /// Holding the button for `t` milliseconds beats the record.
    pub open spec fn spec_wins(self, t: u64) -> bool {
        t * (self.time_ms - t) > self.distance_mm
    }

    /// How many hold times below `n` beat the record.
    pub open spec fn spec_ways_below(self, n: int) -> int
        decreases n,
    {
        if n <= 0 {
            0
        } else {
            self.spec_ways_below(n - 1) + if self.spec_wins((n - 1) as u64) {
                1int
            } else {
                0int
            }
        }
    }

    /// How many whole-millisecond hold times win this race.
    pub open spec fn spec_ways_to_win(self) -> int {
        self.spec_ways_below(self.time_ms as int)
    }

    /// Count the ways to win for this RaceRecord.
    pub fn ways_to_win(&self) -> (r: u64)
        requires
            self.time_ms < 0x1_0000_0000,
        ensures
            r == self.spec_ways_to_win(),
    {
        let mut ways_to_win: u64 = 0;
        let mut test_time_ms: u64 = 0;
        while test_time_ms < self.time_ms
            invariant
                self.time_ms < 0x1_0000_0000,
                test_time_ms <= self.time_ms,
                ways_to_win <= test_time_ms,
                ways_to_win == self.spec_ways_below(test_time_ms as int),
            decreases self.time_ms - test_time_ms,
        {
            let remaining_time_ms: u64 = self.time_ms - test_time_ms;
            proof {
                assert(test_time_ms * remaining_time_ms < 0x1_0000_0000 * 0x1_0000_0000)
                    by (nonlinear_arith)
                    requires
                        test_time_ms < 0x1_0000_0000,
                        remaining_time_ms < 0x1_0000_0000,
                ;
            }
            if (test_time_ms * remaining_time_ms) > self.distance_mm {
                ways_to_win = ways_to_win + 1;
            }
            test_time_ms = test_time_ms + 1;
        }
        ways_to_win
    }
}

/// The label of a race sheet line: what stands before its first colon.
pub open spec fn line_label(s: Seq<char>) -> Seq<char> {
    s.take(index_of(s, ':'))
}

/// The numbers part of a race sheet line: what stands after its first
/// colon.
pub open spec fn line_numbers(s: Seq<char>) -> Seq<char> {
    s.skip(index_of(s, ':') + 1)
}

/// Every line of the race sheet has a colon, names `Time` or `Distance`
/// before it, and carries decimal numbers after it.
pub open spec fn races_text_ok(s: Seq<char>) -> bool {
    let lines = split_by(s, '\n');
    forall|i: int|
        0 <= i < lines.len() ==> {
            let line = #[trigger] lines[i];
            &&& index_of(line, ':') < line.len()
            &&& (line_label(line) == "Time"@ || line_label(line) == "Distance"@)
            &&& forall|j: int|
                0 <= j < split_ws(line_numbers(line)).len() ==> is_u64_token(
                    #[trigger] split_ws(line_numbers(line))[j],
                )
        }
}

/// The duration tokens of the race sheet: the numbers of its last line
/// labelled `Time`.
pub open spec fn spec_time_tokens(lines: Seq<Seq<char>>) -> Seq<Seq<char>>
    decreases lines.len(),
{
    if lines.len() == 0 {
        seq![]
    } else if line_label(lines.last()) == "Time"@ {
        split_ws(line_numbers(lines.last()))
    } else {
        spec_time_tokens(lines.drop_last())
    }
}

/// The distance tokens of the race sheet: the numbers of its last line
/// labelled `Distance`.
pub open spec fn spec_distance_tokens(lines: Seq<Seq<char>>) -> Seq<Seq<char>>
    decreases lines.len(),
{
    if lines.len() == 0 {
        seq![]
    } else if line_label(lines.last()) == "Distance"@ {
        split_ws(line_numbers(lines.last()))
    } else {
        spec_distance_tokens(lines.drop_last())
    }
}

/// The single-character colon pattern finds the first colon.
proof fn lemma_colon_occurrence(s: Seq<char>)
    requires
        index_of(s, ':') < s.len(),
    ensures
        crate::text::has_sub(s, ":"@),
        crate::text::index_of_sub(s, ":"@) == index_of(s, ':'),
{
    reveal_strlit(":");
    assert(":"@ =~= seq![':']);
    crate::text::lemma_single_char_occurrence(s, ':');
}

/// Reads the numbers of one race sheet line.
fn parse_line_numbers(line: &str) -> (r: Vec<u64>)
    requires
        line.is_ascii(),
        index_of(line@, ':') < line@.len(),
        forall|j: int|
            0 <= j < split_ws(line_numbers(line@)).len() ==> is_u64_token(
                #[trigger] split_ws(line_numbers(line@))[j],
            ),
    ensures
        r@.len() == split_ws(line_numbers(line@)).len(),
        forall|j: int|
            0 <= j < r@.len() ==> #[trigger] r@[j] == digits_val(split_ws(line_numbers(line@))[j]),
{
    proof {
        reveal_strlit(":");
        assert(":"@.len() == 1);
        lemma_colon_occurrence(line@);
    }
    let (_line_name, numbers_raw) = split_once_at(line, ":").unwrap();
    proof {
        assert(numbers_raw@ == line_numbers(line@));
    }
    let toks = split_whitespace(numbers_raw);
    let ghost tok_views = toks@.map_values(|t: &str| t@);
    let mut values: Vec<u64> = Vec::new();
    let mut j: usize = 0;
    while j < toks.len()
        invariant
            tok_views == toks@.map_values(|t: &str| t@),
            tok_views == split_ws(line_numbers(line@)),
            forall|k: int| 0 <= k < toks@.len() ==> (#[trigger] toks@[k]).is_ascii(),
            forall|k: int| 0 <= k < tok_views.len() ==> is_u64_token(#[trigger] tok_views[k]),
            j <= toks@.len(),
            values@.len() == j,
            forall|k: int| 0 <= k < j ==> #[trigger] values@[k] == digits_val(tok_views[k]),
        decreases toks@.len() - j,
    {
        proof {
            assert(tok_views[j as int] == toks@[j as int]@);
        }
        values.push(parse_u64(toks[j]).unwrap());
        j = j + 1;
    }
    values
}

/// Reads the race sheet into one record per column: the `Time` line and
/// the `Distance` line zipped together, the shorter list ending the zip.
pub fn parse_races(input: &str) -> (r: Vec<RaceRecord>)
    requires
        input.is_ascii(),
        races_text_ok(input@),
    ensures
        ({
            let times = spec_time_tokens(split_by(input@, '\n'));
            let distances = spec_distance_tokens(split_by(input@, '\n'));
            &&& r@.len() == if times.len() <= distances.len() {
                times.len()
            } else {
                distances.len()
            }
            &&& forall|i: int|
                0 <= i < r@.len() ==> #[trigger] r@[i] == (RaceRecord {
                    time_ms: digits_val(times[i]) as u64,
                    distance_mm: digits_val(distances[i]) as u64,
                })
        }),
{
    let lines = split_char(input, '\n');
    let ghost line_views = lines@.map_values(|t: &str| t@);
    let ghost all_lines = split_by(input@, '\n');
    let mut parsed_times: Vec<u64> = Vec::new();
    let mut parsed_distances: Vec<u64> = Vec::new();
    let mut i: usize = 0;
    proof {
        assert(all_lines.take(0) =~= Seq::<Seq<char>>::empty());
    }
    while i < lines.len()
        invariant
            input.is_ascii(),
            races_text_ok(input@),
            line_views == lines@.map_values(|t: &str| t@),
            line_views == all_lines,
            all_lines == split_by(input@, '\n'),
            forall|j: int| 0 <= j < lines@.len() ==> (#[trigger] lines@[j]).is_ascii(),
            i <= lines@.len(),
            parsed_times@.len() == spec_time_tokens(all_lines.take(i as int)).len(),
            forall|j: int|
                0 <= j < parsed_times@.len() ==> #[trigger] parsed_times@[j] == digits_val(
                    spec_time_tokens(all_lines.take(i as int))[j],
                ),
            parsed_distances@.len() == spec_distance_tokens(all_lines.take(i as int)).len(),
            forall|j: int|
                0 <= j < parsed_distances@.len() ==> #[trigger] parsed_distances@[j] == digits_val(
                    spec_distance_tokens(all_lines.take(i as int))[j],
                ),
        decreases lines@.len() - i,
    {
        proof {
            reveal_strlit(":");
            reveal_strlit("Time");
            reveal_strlit("Distance");
            assert(":"@.len() == 1);
            assert(line_views[i as int] == lines@[i as int]@);
            assert(all_lines.take(i + 1).drop_last() =~= all_lines.take(i as int));
            assert(all_lines.take(i + 1).last() == all_lines[i as int]);
            lemma_colon_occurrence(lines@[i as int]@);
        }
        let (line_name, _rest) = split_once_at(lines[i], ":").unwrap();
        proof {
            assert(line_name@ == line_label(all_lines[i as int]));
        }
        if str_eq(line_name, "Time") {
            parsed_times = parse_line_numbers(lines[i]);
        } else {
            parsed_distances = parse_line_numbers(lines[i]);
        }
        i = i + 1;
    }
    proof {
        assert(all_lines.take(lines@.len() as int) =~= all_lines);
    }
    let count = if parsed_times.len() <= parsed_distances.len() {
        parsed_times.len()
    } else {
        parsed_distances.len()
    };
    let mut race_records: Vec<RaceRecord> = Vec::new();
    let mut k: usize = 0;
    while k < count
        invariant
            count <= parsed_times@.len(),
            count <= parsed_distances@.len(),
            k <= count,
            race_records@.len() == k,
            forall|j: int|
                0 <= j < k ==> #[trigger] race_records@[j] == (RaceRecord {
                    time_ms: parsed_times@[j],
                    distance_mm: parsed_distances@[j],
                }),
        decreases count - k,
    {
        race_records.push(RaceRecord { time_ms: parsed_times[k], distance_mm: parsed_distances[k] });
        k = k + 1;
    }
    race_records
}

/// The digits of a whitespace token list, joined into one number string.
pub open spec fn joined_tokens(toks: Seq<Seq<char>>) -> Seq<char>
    decreases toks.len(),
{
    if toks.len() == 0 {
        Seq::empty()
    } else {
        joined_tokens(toks.drop_last()) + toks.last()
    }
}

/// Reads the race sheet as one single race: the numbers of each line run
/// together into one big number.
pub fn parse_super_race(input: &str) -> (r: RaceRecord)
    requires
        input.is_ascii(),
        races_text_ok(input@),
        forall|i: int|
            0 <= i < split_by(input@, '\n').len() ==> is_u64_token(
                joined_tokens(split_ws(line_numbers(#[trigger] split_by(input@, '\n')[i]))),
            ),
    ensures
        r.time_ms == digits_val(joined_tokens(spec_time_tokens(split_by(input@, '\n')))),
        r.distance_mm == digits_val(joined_tokens(spec_distance_tokens(split_by(input@, '\n')))),
{
    let lines = split_char(input, '\n');
    let ghost line_views = lines@.map_values(|t: &str| t@);
    let ghost all_lines = split_by(input@, '\n');
    let mut parsed_time_ms: u64 = 0;
    let mut parsed_distance_mm: u64 = 0;
    let mut i: usize = 0;
    proof {
        assert(all_lines.take(0) =~= Seq::<Seq<char>>::empty());
        lemma_joined_of_empty();
    }
    while i < lines.len()
        invariant
            input.is_ascii(),
            races_text_ok(input@),
            forall|j: int|
                0 <= j < all_lines.len() ==> is_u64_token(
                    joined_tokens(split_ws(line_numbers(#[trigger] all_lines[j]))),
                ),
            line_views == lines@.map_values(|t: &str| t@),
            line_views == all_lines,
            all_lines == split_by(input@, '\n'),
            forall|j: int| 0 <= j < lines@.len() ==> (#[trigger] lines@[j]).is_ascii(),
            i <= lines@.len(),
            parsed_time_ms == digits_val(joined_tokens(spec_time_tokens(all_lines.take(i as int)))),
            parsed_distance_mm == digits_val(
                joined_tokens(spec_distance_tokens(all_lines.take(i as int))),
            ),
        decreases lines@.len() - i,
    {
        proof {
            reveal_strlit(":");
            reveal_strlit("Time");
            reveal_strlit("Distance");
            assert(":"@.len() == 1);
            assert(line_views[i as int] == lines@[i as int]@);
            assert(all_lines.take(i + 1).drop_last() =~= all_lines.take(i as int));
            assert(all_lines.take(i + 1).last() == all_lines[i as int]);
            lemma_colon_occurrence(lines@[i as int]@);
        }
        let (line_name, numbers_raw) = split_once_at(lines[i], ":").unwrap();
        proof {
            assert(line_name@ == line_label(all_lines[i as int]));
            assert(numbers_raw@ == line_numbers(all_lines[i as int]));
        }
        if str_eq(line_name, "Time") {
            parsed_time_ms = parse_joined(numbers_raw);
        } else {
            parsed_distance_mm = parse_joined(numbers_raw);
        }
        i = i + 1;
    }
    proof {
        assert(all_lines.take(lines@.len() as int) =~= all_lines);
    }
    RaceRecord { time_ms: parsed_time_ms, distance_mm: parsed_distance_mm }
}

/// The empty token list joins to the empty string.
proof fn lemma_joined_of_empty()
    ensures
        digits_val(joined_tokens(Seq::empty())) == 0,
{
}

/// Joins the whitespace tokens of `numbers_raw` and reads the result as
/// one decimal number.
fn parse_joined(numbers_raw: &str) -> (r: u64)
    requires
        numbers_raw.is_ascii(),
        is_u64_token(joined_tokens(split_ws(numbers_raw@))),
    ensures
        r == digits_val(joined_tokens(split_ws(numbers_raw@))),
{
    let toks = split_whitespace(numbers_raw);
    let ghost tok_views = toks@.map_values(|t: &str| t@);
    let mut joined = String::new();
    let mut j: usize = 0;
    proof {
        assert(tok_views.take(0) =~= Seq::<Seq<char>>::empty());
        assert(joined@ =~= joined_tokens(tok_views.take(0)));
    }
    while j < toks.len()
        invariant
            tok_views == toks@.map_values(|t: &str| t@),
            tok_views == split_ws(numbers_raw@),
            forall|k: int| 0 <= k < toks@.len() ==> (#[trigger] toks@[k]).is_ascii(),
            j <= toks@.len(),
            joined@ == joined_tokens(tok_views.take(j as int)),
            vstd::utf8::is_ascii_chars(joined@),
        decreases toks@.len() - j,
    {
        proof {
            assert(tok_views[j as int] == toks@[j as int]@);
            assert(tok_views.take(j + 1).drop_last() =~= tok_views.take(j as int));
            assert(tok_views.take(j + 1).last() == tok_views[j as int]);
            let appended = joined@ + toks@[j as int]@;
            assert forall|k: int| 0 <= k < appended.len() implies '\0' <= #[trigger] appended[k]
                <= '\u{7f}' by {
                if k < joined@.len() {
                    assert(appended[k] == joined@[k]);
                } else {
                    assert(appended[k] == toks@[j as int]@[k - joined@.len()]);
                }
            }
        }
        joined.append(toks[j]);
        j = j + 1;
    }
    proof {
        assert(tok_views.take(toks@.len() as int) =~= tok_views);
    }
    let joined_str = joined.as_str();
    proof {
        assert(vstd::string::is_ascii(joined_str));
    }
    parse_u64(joined_str).unwrap()
}

} // verus!
