//! Cube games: each game record lists pulls of red, green and blue
//! cubes, and a game is possible when no pull exceeds what the bag
//! holds.

use crate::text::{
    digit_prefix_len, digit_start, digits_val, has_sub, is_digit, lemma_digit_prefix_bounds,
    lemma_digit_prefix_digits, lemma_digit_prefix_is, lemma_digit_start_bounds,
    lemma_digit_start_is, split_by, split_char, split_once_at,
};
use vstd::prelude::*;

verus! {

/// The first digit run of `s`: the first maximal run of decimal digits.
pub open spec fn first_digit_run(s: Seq<char>) -> Seq<char> {
    s.skip(digit_start(s)).take(digit_prefix_len(s.skip(digit_start(s))))
}

/// The number carried by a pull segment: the value of its first digit
/// run.
pub open spec fn spec_segment_value(s: Seq<char>) -> int {
    digits_val(first_digit_run(s))
}

/// A segment's number is never negative.
pub proof fn lemma_segment_value_nonneg(s: Seq<char>)
    ensures
        spec_segment_value(s) >= 0,
{
    let run = first_digit_run(s);
    lemma_digit_start_bounds(s);
    lemma_digit_prefix_digits(s.skip(digit_start(s)));
    lemma_digit_prefix_bounds(s.skip(digit_start(s)));
    assert forall|j: int| 0 <= j < run.len() implies is_digit(#[trigger] run[j]) by {
        assert(run[j] == s.skip(digit_start(s))[j]);
    }
    crate::text::lemma_digits_val_nonneg(run);
}

/// Reads the first digit run of `s` as a number, as a digit-pattern
/// search followed by parsing reads it.
fn parse_first_number(s: &str) -> (r: u32)
    requires
        s.is_ascii(),
        digit_start(s@) < s@.len(),
        spec_segment_value(s@) <= u32::MAX,
    ensures
        r == spec_segment_value(s@),
{
    let len = s.unicode_len();
    let mut start: usize = 0;
    while start < len && !((s.get_ascii(start) as char) >= '0' && (s.get_ascii(start) as char)
        <= '9')
        invariant
            s.is_ascii(),
            len == s@.len(),
            start <= len,
            forall|j: int| 0 <= j < start ==> !is_digit(s@[j]),
        decreases len - start,
    {
        start = start + 1;
    }
    proof {
        lemma_digit_start_is(s@, start as int);
    }
    let mut fin: usize = start;
    while fin < len && (s.get_ascii(fin) as char) >= '0' && (s.get_ascii(fin) as char) <= '9'
        invariant
            s.is_ascii(),
            len == s@.len(),
            start <= fin <= len,
            forall|j: int| start <= j < fin ==> is_digit(s@[j]),
        decreases len - fin,
    {
        fin = fin + 1;
    }
    proof {
        let rest = s@.skip(start as int);
        assert forall|j: int| 0 <= j < fin - start implies is_digit(rest[j]) by {
            assert(rest[j] == s@[start + j]);
        }
        if fin < len {
            assert(rest[fin - start] == s@[fin as int]);
        }
        lemma_digit_prefix_is(rest, fin - start);
        assert(rest.take(fin - start) =~= s@.subrange(start as int, fin as int));
    }
    let run = s.substring_ascii(start, fin);
    crate::text::parse_u32(run).unwrap()
}

/// One pull of cubes out of the bag.
#[derive(Clone, Copy, Debug)]
pub struct GamePull {
    pub red: u32,
    pub green: u32,
    pub blue: u32,
}

/// The red, green and blue totals of a pull record: each comma-separated
/// segment adds its number to the first color word it carries.
pub open spec fn spec_pull_totals(segments: Seq<Seq<char>>) -> (int, int, int)
    decreases segments.len(),
{
    if segments.len() == 0 {
        (0, 0, 0)
    } else {
        let rest = spec_pull_totals(segments.drop_last());
        let v = spec_segment_value(segments.last());
        if has_sub(segments.last(), "red"@) {
            (rest.0 + v, rest.1, rest.2)
        } else if has_sub(segments.last(), "green"@) {
            (rest.0, rest.1 + v, rest.2)
        } else {
            (rest.0, rest.1, rest.2 + v)
        }
    }
}

/// Every segment of a pull record carries a digit run, a number in
/// range, and a color word.
pub open spec fn pull_record_ok(s: Seq<char>) -> bool {
    let segs = split_by(s, ',');
    &&& forall|i: int|
        0 <= i < segs.len() ==> digit_start(#[trigger] segs[i]) < segs[i].len()
            && spec_segment_value(segs[i]) <= u32::MAX
    &&& forall|i: int|
        0 <= i < segs.len() ==> (has_sub(#[trigger] segs[i], "red"@) || has_sub(
            segs[i],
            "green"@,
        ) || has_sub(segs[i], "blue"@))
    &&& spec_pull_totals(segs).0 <= u32::MAX
    &&& spec_pull_totals(segs).1 <= u32::MAX
    &&& spec_pull_totals(segs).2 <= u32::MAX
}

impl GamePull {
    /// Reads one pull record: comma-separated segments, each a number
    /// beside its color word.
    pub fn parse(rec: &str) -> (r: GamePull)
        requires
            rec.is_ascii(),
            pull_record_ok(rec@),
        ensures
            r.red == spec_pull_totals(split_by(rec@, ',')).0,
            r.green == spec_pull_totals(split_by(rec@, ',')).1,
            r.blue == spec_pull_totals(split_by(rec@, ',')).2,
    {
        let segments = split_char(rec, ',');
        let ghost seg_views = segments@.map_values(|t: &str| t@);
        let mut all_red: u32 = 0;
        let mut all_green: u32 = 0;
        let mut all_blue: u32 = 0;
        let mut i: usize = 0;
        proof {
            assert(seg_views.take(0) =~= Seq::<Seq<char>>::empty());
        }
        while i < segments.len()
            invariant
                seg_views == segments@.map_values(|t: &str| t@),
                seg_views == split_by(rec@, ','),
                pull_record_ok(rec@),
                forall|j: int| 0 <= j < segments@.len() ==> (#[trigger] segments@[j]).is_ascii(),
                i <= segments@.len(),
                all_red == spec_pull_totals(seg_views.take(i as int)).0,
                all_green == spec_pull_totals(seg_views.take(i as int)).1,
                all_blue == spec_pull_totals(seg_views.take(i as int)).2,
            decreases segments@.len() - i,
        {
            proof {
                reveal_strlit("red");
                reveal_strlit("green");
                reveal_strlit("blue");
                assert(seg_views[i as int] == segments@[i as int]@);
                assert(seg_views.take(i + 1).drop_last() =~= seg_views.take(i as int));
                assert(seg_views.take(i + 1).last() == seg_views[i as int]);
                lemma_pull_totals_prefix_bounds(seg_views, i + 1);
            }
            let x: u32 = parse_first_number(segments[i]);
            if contains_word(segments[i], "red") {
                all_red = all_red + x;
            } else if contains_word(segments[i], "green") {
                all_green = all_green + x;
            } else if contains_word(segments[i], "blue") {
                all_blue = all_blue + x;
            } else {
                proof {
                    assert(false);
                }
            }
            i = i + 1;
        }
        proof {
            assert(seg_views.take(segments@.len() as int) =~= seg_views);
        }
        GamePull { red: all_red, green: all_green, blue: all_blue }
    }

    /// A pull is possible when no color exceeds what the bag holds.
    pub fn is_possible(&self, red_pull: u32, green_pull: u32, blue_pull: u32) -> (r: bool)
        ensures
            r == (self.red <= red_pull && self.green <= green_pull && self.blue <= blue_pull),
    {
        (self.red <= red_pull) && (self.green <= green_pull) && (self.blue <= blue_pull)
    }

    /// The power of a pull: its three counts multiplied.
    pub fn get_power(&self) -> (r: u32)
        requires
            self.red * self.green * self.blue <= u32::MAX,
        ensures
            r == self.red * self.green * self.blue,
    {
        proof {
            assert((self.red as int) * (self.green as int) < 0x1_0000_0000 * 0x1_0000_0000)
                by (nonlinear_arith)
                requires
                    self.red < 0x1_0000_0000,
                    self.green < 0x1_0000_0000,
            ;
            assert((self.red as int) * (self.green as int) * (self.blue as int)
                < 0x1_0000_0000 * 0x1_0000_0000 * 0x1_0000_0000) by (nonlinear_arith)
                requires
                    self.red < 0x1_0000_0000,
                    self.green < 0x1_0000_0000,
                    self.blue < 0x1_0000_0000,
            ;
        }
        let wide: u128 = self.red as u128 * self.green as u128 * self.blue as u128;
        wide as u32
    }
}

/// A pull's color totals never run below zero.
proof fn lemma_pull_totals_prefix_bounds(segs: Seq<Seq<char>>, i: int)
    requires
        0 <= i <= segs.len(),
    ensures
        0 <= spec_pull_totals(segs.take(i)).0 <= spec_pull_totals(segs).0,
        0 <= spec_pull_totals(segs.take(i)).1 <= spec_pull_totals(segs).1,
        0 <= spec_pull_totals(segs.take(i)).2 <= spec_pull_totals(segs).2,
    decreases segs.len() - i,
{
    if i == segs.len() {
        assert(segs.take(i) =~= segs);
        lemma_pull_totals_nonneg(segs);
    } else {
        lemma_pull_totals_prefix_bounds(segs, i + 1);
        assert(segs.take(i + 1).drop_last() =~= segs.take(i));
        assert(segs.take(i + 1).last() == segs[i]);
        lemma_segment_value_nonneg(segs[i]);
        lemma_pull_totals_nonneg(segs.take(i));
    }
}

/// Pull totals are never negative.
proof fn lemma_pull_totals_nonneg(segs: Seq<Seq<char>>)
    ensures
        spec_pull_totals(segs).0 >= 0,
        spec_pull_totals(segs).1 >= 0,
        spec_pull_totals(segs).2 >= 0,
    decreases segs.len(),
{
    if segs.len() > 0 {
        lemma_pull_totals_nonneg(segs.drop_last());
        lemma_segment_value_nonneg(segs.last());
    }
}

/// Decides whether the ascii word occurs in the segment.
fn contains_word(seg: &str, word: &str) -> (r: bool)
    requires
        seg.is_ascii(),
        word.is_ascii(),
        word@.len() >= 1,
    ensures
        r == has_sub(seg@, word@),
{
    split_once_at(seg, word).is_some()
}

/// One game: its number and its pulls.
#[derive(Clone, Debug)]
pub struct Game {
    pub number: u32,
    pub pulls: Vec<GamePull>,
}

/// Every semicolon-separated pull of the game record is well formed.
pub open spec fn game_record_ok(s: Seq<char>) -> bool {
    forall|i: int| 0 <= i < split_by(s, ';').len() ==> pull_record_ok(#[trigger] split_by(s, ';')[i])
}

impl Game {
    /// Reads the pulls of one game record.
    pub fn new(number: u32, record: &str) -> (r: Game)
        requires
            record.is_ascii(),
            game_record_ok(record@),
        ensures
            r.number == number,
            r.pulls@.len() == split_by(record@, ';').len(),
            forall|i: int|
                0 <= i < r.pulls@.len() ==> {
                    let totals = spec_pull_totals(split_by(#[trigger] split_by(record@, ';')[i], ','));
                    &&& r.pulls@[i].red == totals.0
                    &&& r.pulls@[i].green == totals.1
                    &&& r.pulls@[i].blue == totals.2
                },
    {
        let recs = split_char(record, ';');
        let ghost rec_views = recs@.map_values(|t: &str| t@);
        let mut pulls: Vec<GamePull> = Vec::new();
        let mut i: usize = 0;
        while i < recs.len()
            invariant
                rec_views == recs@.map_values(|t: &str| t@),
                rec_views == split_by(record@, ';'),
                game_record_ok(record@),
                forall|j: int| 0 <= j < recs@.len() ==> (#[trigger] recs@[j]).is_ascii(),
                i <= recs@.len(),
                pulls@.len() == i,
                forall|j: int|
                    0 <= j < i ==> {
                        let totals = spec_pull_totals(split_by(rec_views[j], ','));
                        &&& (#[trigger] pulls@[j]).red == totals.0
                        &&& pulls@[j].green == totals.1
                        &&& pulls@[j].blue == totals.2
                    },
            decreases recs@.len() - i,
        {
            proof {
                assert(rec_views[i as int] == recs@[i as int]@);
            }
            pulls.push(GamePull::parse(recs[i]));
            i = i + 1;
        }
        Game { number, pulls }
    }

    /// The red maximum over the pulls below `n`.
    pub open spec fn spec_max_red(pulls: Seq<GamePull>, n: int) -> int
        decreases n,
    {
        if n <= 0 {
            0
        } else if pulls[n - 1].red > Self::spec_max_red(pulls, n - 1) {
            pulls[n - 1].red as int
        } else {
            Self::spec_max_red(pulls, n - 1)
        }
    }

    /// The green maximum over the pulls below `n`.
    pub open spec fn spec_max_green(pulls: Seq<GamePull>, n: int) -> int
        decreases n,
    {
        if n <= 0 {
            0
        } else if pulls[n - 1].green > Self::spec_max_green(pulls, n - 1) {
            pulls[n - 1].green as int
        } else {
            Self::spec_max_green(pulls, n - 1)
        }
    }

    /// The blue maximum over the pulls below `n`.
    pub open spec fn spec_max_blue(pulls: Seq<GamePull>, n: int) -> int
        decreases n,
    {
        if n <= 0 {
            0
        } else if pulls[n - 1].blue > Self::spec_max_blue(pulls, n - 1) {
            pulls[n - 1].blue as int
        } else {
            Self::spec_max_blue(pulls, n - 1)
        }
    }

    /// The smallest bag that makes every pull of the game possible: the
    /// maximum of each color over the pulls.
    pub fn get_min_needed_cubes(&self) -> (r: GamePull)
        requires
            self.pulls@.len() >= 1,
        ensures
            r.red == Self::spec_max_red(self.pulls@, self.pulls@.len() as int),
            r.green == Self::spec_max_green(self.pulls@, self.pulls@.len() as int),
            r.blue == Self::spec_max_blue(self.pulls@, self.pulls@.len() as int),
    {
        let mut max_red: u32 = 0;
        let mut max_green: u32 = 0;
        let mut max_blue: u32 = 0;
        let mut i: usize = 0;
        while i < self.pulls.len()
            invariant
                i <= self.pulls@.len(),
                max_red == Self::spec_max_red(self.pulls@, i as int),
                max_green == Self::spec_max_green(self.pulls@, i as int),
                max_blue == Self::spec_max_blue(self.pulls@, i as int),
            decreases self.pulls@.len() - i,
        {
            let pull = self.pulls[i];
            if pull.red > max_red {
                max_red = pull.red;
            }
            if pull.green > max_green {
                max_green = pull.green;
            }
            if pull.blue > max_blue {
                max_blue = pull.blue;
            }
            i = i + 1;
        }
        GamePull { red: max_red, green: max_green, blue: max_blue }
    }
}

/// The record line names a game: the word `Game` and a number before the
/// colon, and pulls after it.
pub open spec fn record_line_ok(s: Seq<char>) -> bool {
    let number_part = s.subrange(
        crate::text::index_of_sub(s, "Game "@) + 5,
        crate::text::index_of(s, ':'),
    );
    &&& has_sub(s, "Game "@)
    &&& crate::text::index_of(s, ':') < s.len()
    &&& crate::text::index_of_sub(s, "Game "@) + 5 <= crate::text::index_of(s, ':')
    &&& crate::text::is_u32_token(number_part)
    &&& game_record_ok(s.skip(crate::text::index_of(s, ':') + 1))
}

/// Reads one game line: its number between the label and the colon, and
/// its pulls after the colon.
pub fn parse_record(record: &str) -> (r: Game)
    requires
        record.is_ascii(),
        record_line_ok(record@),
    ensures
        r.number == digits_val(
            record@.subrange(
                crate::text::index_of_sub(record@, "Game "@) + 5,
                crate::text::index_of(record@, ':'),
            ),
        ),
        r.pulls@.len() == split_by(record@.skip(crate::text::index_of(record@, ':') + 1), ';').len(),
        forall|i: int|
            0 <= i < r.pulls@.len() ==> {
                let totals = spec_pull_totals(
                    split_by(
                        #[trigger] split_by(
                            record@.skip(crate::text::index_of(record@, ':') + 1),
                            ';',
                        )[i],
                        ',',
                    ),
                );
                &&& r.pulls@[i].red == totals.0
                &&& r.pulls@[i].green == totals.1
                &&& r.pulls@[i].blue == totals.2
            },
{
    proof {
        reveal_strlit("Game ");
        reveal_strlit(":");
        assert(":"@ =~= seq![':']);
        assert("Game "@.len() == 5);
        crate::text::lemma_single_char_occurrence(record@, ':');
        crate::text::lemma_index_of_sub_bounds(record@, "Game "@);
    }
    let ghost label_end = crate::text::index_of_sub(record@, "Game "@) + 5;
    let ghost colon = crate::text::index_of(record@, ':');
    let (_before_game, after_game) = split_once_at(record, "Game ").unwrap();
    let (number_and_more, pulls_text) = split_once_at(record, ":").unwrap();
    // the digits of the game number stand between the label and the colon
    let glen = record.unicode_len();
    let after_len = after_game.unicode_len();
    proof {
        assert(after_game@ == record@.skip(label_end));
        assert(after_game@.len() == record@.len() - label_end);
        assert(number_and_more@ == record@.take(colon));
        assert(number_and_more@.len() == colon);
        assert(pulls_text@ == record@.skip(colon + 1));
    }
    let number_start: usize = glen - after_len;
    let colon_pos: usize = number_and_more.unicode_len();
    let game_number_text = record.substring_ascii(number_start, colon_pos);
    proof {
        assert(game_number_text@ =~= record@.subrange(label_end, colon));
    }
    let game_number = crate::text::parse_u32(game_number_text).unwrap();
    Game::new(game_number, pulls_text)
}

/// Reads the whole game sheet, one game per line.
pub fn load_games(game_records: &str) -> (r: Vec<Game>)
    requires
        game_records.is_ascii(),
        forall|i: int|
            0 <= i < split_by(game_records@, '\n').len() ==> record_line_ok(
                #[trigger] split_by(game_records@, '\n')[i],
            ),
    ensures
        r@.len() == split_by(game_records@, '\n').len(),
        forall|i: int|
            0 <= i < r@.len() ==> (#[trigger] r@[i]).number == digits_val(
                split_by(game_records@, '\n')[i].subrange(
                    crate::text::index_of_sub(split_by(game_records@, '\n')[i], "Game "@) + 5,
                    crate::text::index_of(split_by(game_records@, '\n')[i], ':'),
                ),
            ),
{
    let lines = split_char(game_records, '\n');
    let ghost line_views = lines@.map_values(|t: &str| t@);
    let mut games: Vec<Game> = Vec::new();
    let mut i: usize = 0;
    while i < lines.len()
        invariant
            line_views == lines@.map_values(|t: &str| t@),
            line_views == split_by(game_records@, '\n'),
            forall|j: int| 0 <= j < line_views.len() ==> record_line_ok(#[trigger] line_views[j]),
            forall|j: int| 0 <= j < lines@.len() ==> (#[trigger] lines@[j]).is_ascii(),
            i <= lines@.len(),
            games@.len() == i,
            forall|j: int|
                0 <= j < i ==> (#[trigger] games@[j]).number == digits_val(
                    line_views[j].subrange(
                        crate::text::index_of_sub(line_views[j], "Game "@) + 5,
                        crate::text::index_of(line_views[j], ':'),
                    ),
                ),
        decreases lines@.len() - i,
    {
        proof {
            assert(line_views[i as int] == lines@[i as int]@);
        }
        games.push(parse_record(lines[i]));
        i = i + 1;
    }
    games
}

} // verus!
