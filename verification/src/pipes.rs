//! A grid of pipe segments: discovery of the closed loop that runs through
//! the start cell, and classification of every other cell as interior or
//! exterior to that loop.
//!
//! The grid is a rectangular character map.  Each cell is one of the pipe
//! symbols `|`, `-`, `L`, `J`, `7`, `F`, open ground `.`, or the start
//! marker `S`.  A walker follows pipe connectivity one step at a time; four
//! walkers launched in the four cardinal directions from the start discover
//! the loop, and a row-by-row parity scan counts the cells it encloses.

use vstd::prelude::*;

verus! {

/// A direction of travel, or a terminal walker report: `Stuck` when no
/// continuation exists, `Goal` when the walker is back on the start cell.
#[derive(PartialEq, Eq, Structural, Clone, Copy, Debug)]
pub enum Direction {
    Up,
    Down,
    Left,
    Right,
    Stuck,
    Goal,
}

/// A row/column coordinate on a 2D map.
#[derive(PartialEq, Eq, Structural, Clone, Copy, Debug)]
pub struct MapCoord {
    /// The row of this coordinate, growing downward from zero.
    pub row: usize,
    /// The column of this coordinate, growing rightward from zero.
    pub col: usize,
}

impl MapCoord {
    /// `other` lies directly below `self`: one row further down, same column.
    pub open spec fn spec_is_below(self, other: MapCoord) -> bool {
        other.row + 1 == self.row && other.col == self.col
    }

    /// `other` lies directly above `self`: one row further up, same column.
    pub open spec fn spec_is_above(self, other: MapCoord) -> bool {
        other.row == self.row + 1 && other.col == self.col
    }

    /// `other` lies directly to the left of `self` (seen from `other`):
    /// same row, one column further right.
    pub open spec fn spec_is_left_of(self, other: MapCoord) -> bool {
        other.row == self.row && other.col == self.col + 1
    }

    /// `other` lies directly to the right of `self` (seen from `other`):
    /// same row, one column further left.
    pub open spec fn spec_is_right_of(self, other: MapCoord) -> bool {
        other.row == self.row && other.col + 1 == self.col
    }

    /// Checks to see if `other` is directly below `self`.
    pub fn is_below(&self, other: &MapCoord) -> (r: bool)
        ensures
            r == self.spec_is_below(*other),
    {
        other.row < usize::MAX && other.row + 1 == self.row && other.col == self.col
    }

    /// Checks to see if `other` is directly above `self`.
    pub fn is_above(&self, other: &MapCoord) -> (r: bool)
        ensures
            r == self.spec_is_above(*other),
    {
        self.row < usize::MAX && other.row == self.row + 1 && other.col == self.col
    }

    /// Checks to see if `other` is directly to the left of `self`.
    pub fn is_left_of(&self, other: &MapCoord) -> (r: bool)
        ensures
            r == self.spec_is_left_of(*other),
    {
        self.col < usize::MAX && other.row == self.row && other.col == self.col + 1
    }

    /// Checks to see if `other` is directly to the right of `self`.
    pub fn is_right_of(&self, other: &MapCoord) -> (r: bool)
        ensures
            r == self.spec_is_right_of(*other),
    {
        other.col < usize::MAX && other.row == self.row && other.col + 1 == self.col
    }

    /// The direction `self` is relative to `other`, or `None` when the two
    /// coordinates are not cardinally adjacent.
    pub open spec fn spec_rel_pos_of(self, other: MapCoord) -> Option<Direction> {
        if self.spec_is_above(other) {
            Some(Direction::Up)
        } else if self.spec_is_below(other) {
            Some(Direction::Down)
        } else if self.spec_is_left_of(other) {
            Some(Direction::Left)
        } else if self.spec_is_right_of(other) {
            Some(Direction::Right)
        } else {
            None
        }
    }

    /// Returns the Direction that this MapCoord is relative to `other`,
    /// or `None` if `other` is not adjacent to this one.
    pub fn get_rel_pos_of(&self, other: &MapCoord) -> (r: Option<Direction>)
        ensures
            r == self.spec_rel_pos_of(*other),
    {
        if self.is_above(other) {
            Some(Direction::Up)
        } else if self.is_below(other) {
            Some(Direction::Down)
        } else if self.is_left_of(other) {
            Some(Direction::Left)
        } else if self.is_right_of(other) {
            Some(Direction::Right)
        } else {
            None
        }
    }
}

/// A failure while transiting a single pipe cell.
#[derive(PartialEq, Eq, Structural, Clone, Copy, Debug)]
pub enum PipeMapError {
    /// Travel arrived at a pipe from a side the pipe does not connect.
    InvalidPipe,
    /// The transit request does not describe a move (departure and arrival
    /// coincide, or the arrival cell is off the map).
    BadTransit,
}

/// A fatal failure of the whole pipeline.
#[derive(PartialEq, Eq, Structural, Clone, Copy, Debug)]
pub enum MazeError {
    /// The input text is not a rectangular map of known symbols with
    /// exactly one start cell.
    MalformedGrid,
    /// Zero walkers, or more than one walker, returned to the start: the
    /// map holds no unambiguous loop.
    AmbiguousOrMissingLoop,
}

/// The mathematical model of a pipe map: its cells in row-major order and
/// its dimensions.
pub ghost struct GridModel {
    pub cells: Seq<char>,
    pub rows: nat,
    pub cols: nat,
}

/// The symbols a pipe map cell may hold.
pub open spec fn valid_symbol(c: char) -> bool {
    c == '|' || c == '-' || c == 'L' || c == 'J' || c == '7' || c == 'F' || c == '.' || c == 'S'
}

impl GridModel {
    /// The buffer matches the dimensions and holds only known symbols.
    pub open spec fn wf(self) -> bool {
        &&& self.cells.len() == self.rows * self.cols
        &&& forall|i: int| 0 <= i < self.cells.len() ==> valid_symbol(#[trigger] self.cells[i])
    }

    /// The dimensions fit the machine: every coordinate of the map is a
    /// representable index.
    pub open spec fn bounded(self) -> bool {
        self.rows <= usize::MAX && self.cols <= usize::MAX
    }

    /// `c` designates a cell of the map.
    pub open spec fn in_bounds(self, c: MapCoord) -> bool {
        c.row < self.rows && c.col < self.cols
    }

    /// The row-major position of an in-bounds coordinate.
    pub open spec fn flat(self, c: MapCoord) -> int {
        c.row * self.cols + c.col
    }

    /// The symbol at `c`, or `None` off the map.
    pub open spec fn cell(self, c: MapCoord) -> Option<char> {
        if self.in_bounds(c) {
            Some(self.cells[self.flat(c)])
        } else {
            None
        }
    }

    /// The coordinate one step from `c` in `dir`, or `None` when that step
    /// leaves the map.  The terminal reports `Stuck` and `Goal` name no
    /// step at all.
    pub open spec fn neighbor(self, c: MapCoord, dir: Direction) -> Option<MapCoord> {
        match dir {
            Direction::Up => if c.row > 0 {
                Some(MapCoord { row: (c.row - 1) as usize, col: c.col })
            } else {
                None
            },
            Direction::Down => if c.row + 1 < self.rows {
                Some(MapCoord { row: (c.row + 1) as usize, col: c.col })
            } else {
                None
            },
            Direction::Left => if c.col > 0 {
                Some(MapCoord { row: c.row, col: (c.col - 1) as usize })
            } else {
                None
            },
            Direction::Right => if c.col + 1 < self.cols {
                Some(MapCoord { row: c.row, col: (c.col + 1) as usize })
            } else {
                None
            },
            Direction::Stuck => None,
            Direction::Goal => None,
        }
    }

    /// The transition table of §the pipe kinds: given the cell just departed
    /// (`from`) and the cell now occupied (`cur`), the direction travel
    /// continues in, or the reason it cannot.
    pub open spec fn transit(self, from: MapCoord, cur: MapCoord) -> Result<
        Direction,
        PipeMapError,
    > {
        if from == cur {
            Err(PipeMapError::BadTransit)
        } else {
            match self.cell(cur) {
                Some(sym) => if sym == '|' {
                    if cur.spec_is_above(from) {
                        Ok(Direction::Up)
                    } else if cur.spec_is_below(from) {
                        Ok(Direction::Down)
                    } else {
                        Err(PipeMapError::InvalidPipe)
                    }
                } else if sym == '-' {
                    if cur.spec_is_left_of(from) {
                        Ok(Direction::Left)
                    } else if cur.spec_is_right_of(from) {
                        Ok(Direction::Right)
                    } else {
                        Err(PipeMapError::InvalidPipe)
                    }
                } else if sym == 'L' {
                    if cur.spec_is_left_of(from) {
                        Ok(Direction::Up)
                    } else if cur.spec_is_below(from) {
                        Ok(Direction::Right)
                    } else {
                        Err(PipeMapError::InvalidPipe)
                    }
                } else if sym == 'J' {
                    if cur.spec_is_right_of(from) {
                        Ok(Direction::Up)
                    } else if cur.spec_is_below(from) {
                        Ok(Direction::Left)
                    } else {
                        Err(PipeMapError::InvalidPipe)
                    }
                } else if sym == '7' {
                    if cur.spec_is_right_of(from) {
                        Ok(Direction::Down)
                    } else if cur.spec_is_above(from) {
                        Ok(Direction::Left)
                    } else {
                        Err(PipeMapError::InvalidPipe)
                    }
                } else if sym == 'F' {
                    if cur.spec_is_left_of(from) {
                        Ok(Direction::Down)
                    } else if cur.spec_is_above(from) {
                        Ok(Direction::Right)
                    } else {
                        Err(PipeMapError::InvalidPipe)
                    }
                } else if sym == '.' {
                    Ok(Direction::Stuck)
                } else if sym == 'S' {
                    Ok(Direction::Goal)
                } else {
                    Err(PipeMapError::InvalidPipe)
                },
                None => Err(PipeMapError::BadTransit),
            }
        }
    }
}

/// A rectangular pipe map: single-character cells in one row-major buffer.
pub struct PipeMap {
    /// The raw map data represented in 1 dimension.
    pub map: Vec<char>,
    /// The number of rows in this map.
    pub rows: usize,
    /// The number of columns in this map.
    pub cols: usize,
}

impl View for PipeMap {
    type V = GridModel;

    open spec fn view(&self) -> GridModel {
        GridModel { cells: self.map@, rows: self.rows as nat, cols: self.cols as nat }
    }
}

impl PipeMap {
    /// Returns the character (pipe) contained at the MapCoord located in
    /// this map, or `None` if the MapCoord falls outside of its bounds.
    pub fn get_cell(&self, loc: &MapCoord) -> (r: Option<char>)
        requires
            self@.wf(),
        ensures
            r == self@.cell(*loc),
    {
        if loc.col >= self.cols {
            None
        } else if loc.row >= self.rows {
            None
        } else {
            proof {
                lemma_flat_in_range(self@, *loc);
                assert(vstd::std_specs::vec::spec_vec_len(&self.map) == self.map@.len());
            }
            let flat_pos: usize = loc.row * self.cols + loc.col;
            Some(self.map[flat_pos])
        }
    }

    /// Returns the MapCoord above the provided MapCoord, or `None` if that
    /// step walks off the map.
    pub fn get_map_coord_above(&self, coord: &MapCoord) -> (r: Option<MapCoord>)
        ensures
            r == self@.neighbor(*coord, Direction::Up),
    {
        if coord.row == 0 {
            None
        } else {
            Some(MapCoord { row: coord.row - 1, col: coord.col })
        }
    }

    /// Returns the MapCoord below the provided MapCoord, or `None` if that
    /// step walks off the map.
    pub fn get_map_coord_below(&self, coord: &MapCoord) -> (r: Option<MapCoord>)
        ensures
            r == self@.neighbor(*coord, Direction::Down),
    {
        if coord.row < usize::MAX && coord.row + 1 < self.rows {
            Some(MapCoord { row: coord.row + 1, col: coord.col })
        } else {
            None
        }
    }

    /// Returns the MapCoord to the left of the provided MapCoord, or `None`
    /// if that step walks off the map.
    pub fn get_map_coord_left_of(&self, coord: &MapCoord) -> (r: Option<MapCoord>)
        ensures
            r == self@.neighbor(*coord, Direction::Left),
    {
        if coord.col == 0 {
            None
        } else {
            Some(MapCoord { row: coord.row, col: coord.col - 1 })
        }
    }

    /// Returns the MapCoord to the right of the provided MapCoord, or `None`
    /// if that step walks off the map.
    pub fn get_map_coord_right_of(&self, coord: &MapCoord) -> (r: Option<MapCoord>)
        ensures
            r == self@.neighbor(*coord, Direction::Right),
    {
        if coord.col < usize::MAX && coord.col + 1 < self.cols {
            Some(MapCoord { row: coord.row, col: coord.col + 1 })
        } else {
            None
        }
    }

    /// Follows the pipe at `cur_pos` for travel that just departed
    /// `from_pos`: the continuation direction, a terminal report, or the
    /// reason the cell cannot be transited that way.
    pub fn transit_pipe(&self, from_pos: MapCoord, cur_pos: MapCoord) -> (r: Result<
        Direction,
        PipeMapError,
    >)
        requires
            self@.wf(),
        ensures
            r == self@.transit(from_pos, cur_pos),
    {
        if from_pos == cur_pos {
            return Err(PipeMapError::BadTransit);
        }
        match self.get_cell(&cur_pos) {
            Some('|') => {
                if cur_pos.is_above(&from_pos) {
                    Ok(Direction::Up)
                } else if cur_pos.is_below(&from_pos) {
                    Ok(Direction::Down)
                } else {
                    Err(PipeMapError::InvalidPipe)
                }
            },
            Some('-') => {
                if cur_pos.is_left_of(&from_pos) {
                    Ok(Direction::Left)
                } else if cur_pos.is_right_of(&from_pos) {
                    Ok(Direction::Right)
                } else {
                    Err(PipeMapError::InvalidPipe)
                }
            },
            Some('L') => {
                if cur_pos.is_left_of(&from_pos) {
                    Ok(Direction::Up)
                } else if cur_pos.is_below(&from_pos) {
                    Ok(Direction::Right)
                } else {
                    Err(PipeMapError::InvalidPipe)
                }
            },
            Some('J') => {
                if cur_pos.is_right_of(&from_pos) {
                    Ok(Direction::Up)
                } else if cur_pos.is_below(&from_pos) {
                    Ok(Direction::Left)
                } else {
                    Err(PipeMapError::InvalidPipe)
                }
            },
            Some('7') => {
                if cur_pos.is_right_of(&from_pos) {
                    Ok(Direction::Down)
                } else if cur_pos.is_above(&from_pos) {
                    Ok(Direction::Left)
                } else {
                    Err(PipeMapError::InvalidPipe)
                }
            },
            Some('F') => {
                if cur_pos.is_left_of(&from_pos) {
                    Ok(Direction::Down)
                } else if cur_pos.is_above(&from_pos) {
                    Ok(Direction::Right)
                } else {
                    Err(PipeMapError::InvalidPipe)
                }
            },
            Some('.') => Ok(Direction::Stuck),
            Some('S') => Ok(Direction::Goal),
            Some(_) => Err(PipeMapError::InvalidPipe),
            None => Err(PipeMapError::BadTransit),
        }
    }
}

/// A vector of coordinates denoting the path along a map.
///
/// The first element is the starting block, the last is where the walker
/// finished.
pub struct PipePath {
    pub pipe_locs: Vec<MapCoord>,
}

impl View for PipePath {
    type V = Seq<MapCoord>;

    open spec fn view(&self) -> Seq<MapCoord> {
        self.pipe_locs@
    }
}

impl PipePath {
    /// Appends one location to the path.
    pub fn push(&mut self, location: &MapCoord)
        ensures
            final(self)@ == old(self)@.push(*location),
    {
        self.pipe_locs.push(*location);
    }

    /// The number of locations on the path.
    pub fn len(&self) -> (r: usize)
        ensures
            r == self@.len(),
    {
        self.pipe_locs.len()
    }
}

/// The mathematical state of a walker: the cell it departed, the cell it
/// occupies, and the locations visited so far.
pub ghost struct WalkState {
    pub last: MapCoord,
    pub cur: MapCoord,
    pub path: Seq<MapCoord>,
}

/// The state change of a shove: step from `w.cur` in `dir` when the map
/// allows it, appending the new cell to the path; stay put otherwise.
pub open spec fn spec_shove(g: GridModel, w: WalkState, dir: Direction) -> WalkState {
    match g.neighbor(w.cur, dir) {
        Some(n) => WalkState { last: w.cur, cur: n, path: w.path.push(n) },
        None => w,
    }
}

/// The state a walker is born in: standing on `start`, shoved once in `dir`.
pub open spec fn spec_init(g: GridModel, start: MapCoord, dir: Direction) -> WalkState {
    spec_shove(g, WalkState { last: start, cur: start, path: seq![start] }, dir)
}

/// One walker step: transit the current cell, then move when the result is
/// a cardinal direction whose step stays on the map.  The second component
/// is the direction reported: the transit result, or `Stuck` when the
/// transit fails or the step would leave the map.
pub open spec fn spec_walk_step(g: GridModel, w: WalkState) -> (WalkState, Direction) {
    match g.transit(w.last, w.cur) {
        Err(_) => (w, Direction::Stuck),
        Ok(d) => if d == Direction::Stuck || d == Direction::Goal {
            (w, d)
        } else {
            match g.neighbor(w.cur, d) {
                None => (w, Direction::Stuck),
                Some(n) => (WalkState { last: w.cur, cur: n, path: w.path.push(n) }, d),
            }
        },
    }
}

/// Walker steps repeated until a terminal report, or until the fuel runs
/// out, in which case the walk is abandoned as `Stuck` where it stands.
pub open spec fn spec_explore(g: GridModel, w: WalkState, fuel: nat) -> (WalkState, Direction)
    decreases fuel,
{
    if fuel == 0 {
        (w, Direction::Stuck)
    } else {
        let (w1, d) = spec_walk_step(g, w);
        if d == Direction::Stuck || d == Direction::Goal {
            (w1, d)
        } else {
            spec_explore(g, w1, (fuel - 1) as nat)
        }
    }
}

/// The fuel every walker is given: enough to visit every cell once, and
/// one more step to close back onto the start.
pub open spec fn spec_fuel(g: GridModel) -> nat {
    (g.rows * g.cols + 1) as nat
}

/// The terminal report of the walker launched from `start` in `dir`.
pub open spec fn spec_outcome(g: GridModel, start: MapCoord, dir: Direction) -> Direction {
    spec_explore(g, spec_init(g, start, dir), spec_fuel(g)).1
}

/// The full path of the walker launched from `start` in `dir`.
pub open spec fn spec_walk_path(g: GridModel, start: MapCoord, dir: Direction) -> Seq<MapCoord> {
    spec_explore(g, spec_init(g, start, dir), spec_fuel(g)).0.path
}

/// A stateful cursor that follows pipe connectivity across a map,
/// accumulating the locations it visits.
pub struct MapWalker<'a> {
    pub map: &'a PipeMap,
    pub last_pos: MapCoord,
    pub cur_pos: MapCoord,
    pub path: PipePath,
}

impl<'a> MapWalker<'a> {
    /// The mathematical state of this walker.
    pub open spec fn state(self) -> WalkState {
        WalkState { last: self.last_pos, cur: self.cur_pos, path: self.path@ }
    }

    /// A new walker on `map` standing at `start_pos`, committed to `dir`:
    /// construction immediately advances one step in that direction.
    pub fn new(map: &'a PipeMap, start_pos: MapCoord, dir: Direction) -> (w: MapWalker<'a>)
        ensures
            w.map == map,
            w.state() == spec_init(map@, start_pos, dir),
    {
        let mut locs: Vec<MapCoord> = Vec::new();
        locs.push(start_pos);
        let mut mw = MapWalker {
            map,
            last_pos: start_pos,
            cur_pos: start_pos,
            path: PipePath { pipe_locs: locs },
        };
        proof {
            assert(mw.state().path =~= seq![start_pos]);
        }
        mw.shove(dir);
        mw
    }

    /// Moves the walker onto `pos` when there is one, recording the move on
    /// the path; a `None` leaves the walker where it stands.
    pub fn relocate(&mut self, pos: Option<MapCoord>)
        ensures
            final(self).map == old(self).map,
            final(self).state() == match pos {
                Some(n) => WalkState {
                    last: old(self).state().cur,
                    cur: n,
                    path: old(self).state().path.push(n),
                },
                None => old(self).state(),
            },
    {
        if pos.is_some() {
            self.last_pos = self.cur_pos;
            self.cur_pos = pos.unwrap();
            let moved_to = self.cur_pos;
            self.path.push(&moved_to);
        }
    }

    /// Shoves the walker one cell in `dir` when the map allows it.
    pub fn shove(&mut self, dir: Direction)
        ensures
            final(self).map == old(self).map,
            final(self).state() == spec_shove(old(self).map@, old(self).state(), dir),
    {
        match dir {
            Direction::Up => {
                let n = self.map.get_map_coord_above(&self.cur_pos);
                self.relocate(n);
            },
            Direction::Down => {
                let n = self.map.get_map_coord_below(&self.cur_pos);
                self.relocate(n);
            },
            Direction::Left => {
                let n = self.map.get_map_coord_left_of(&self.cur_pos);
                self.relocate(n);
            },
            Direction::Right => {
                let n = self.map.get_map_coord_right_of(&self.cur_pos);
                self.relocate(n);
            },
            Direction::Stuck => {},
            Direction::Goal => {},
        }
    }

    /// One walker step: transit the current cell and advance when that
    /// yields a cardinal direction whose step stays on the map.  Returns
    /// the direction taken, `Stuck` or `Goal` as the transit reports them,
    /// or `Stuck` when the walk cannot continue.
    pub fn step(&mut self) -> (r: Direction)
        requires
            old(self).map@.wf(),
        ensures
            final(self).map == old(self).map,
            final(self).state() == spec_walk_step(old(self).map@, old(self).state()).0,
            r == spec_walk_step(old(self).map@, old(self).state()).1,
    {
        let potential_direction = self.map.transit_pipe(self.last_pos, self.cur_pos);
        let next_direction: Direction = match potential_direction {
            Ok(direction) => direction,
            Err(_) => Direction::Stuck,
        };
        match next_direction {
            Direction::Stuck => Direction::Stuck,
            Direction::Goal => Direction::Goal,
            _ => {
                let n = match next_direction {
                    Direction::Up => self.map.get_map_coord_above(&self.cur_pos),
                    Direction::Down => self.map.get_map_coord_below(&self.cur_pos),
                    Direction::Left => self.map.get_map_coord_left_of(&self.cur_pos),
                    Direction::Right => self.map.get_map_coord_right_of(&self.cur_pos),
                    _ => None,
                };
                match n {
                    Some(_) => {
                        self.relocate(n);
                        next_direction
                    },
                    None => Direction::Stuck,
                }
            },
        }
    }

    /// Runs this MapWalker until it runs out of moves: steps repeat until
    /// one reports `Stuck` or `Goal`.  A defensive cap of one step per map
    /// cell, plus one, abandons a walk that neither terminates nor leaves
    /// the map in that budget.
    pub fn explore(&mut self) -> (r: Direction)
        requires
            old(self).map@.wf(),
            old(self).map.map@.len() < usize::MAX,
        ensures
            final(self).map == old(self).map,
            final(self).state() == spec_explore(
                old(self).map@,
                old(self).state(),
                spec_fuel(old(self).map@),
            ).0,
            r == spec_explore(old(self).map@, old(self).state(), spec_fuel(old(self).map@)).1,
            r == Direction::Stuck || r == Direction::Goal,
    {
        proof {
            assert(vstd::std_specs::vec::spec_vec_len(&self.map.map) == self.map.map@.len());
        }
        let mut remaining: usize = self.map.rows * self.map.cols + 1;
        let ghost g = self.map@;
        let ghost w0 = self.state();
        let ghost full_fuel = spec_fuel(g);
        loop
            invariant
                self.map == old(self).map,
                g == old(self).map@,
                w0 == old(self).state(),
                full_fuel == spec_fuel(g),
                g.wf(),
                spec_explore(g, self.state(), remaining as nat) == spec_explore(g, w0, full_fuel),
            decreases remaining,
        {
            if remaining == 0 {
                return Direction::Stuck;
            }
            let d = self.step();
            match d {
                Direction::Stuck => {
                    return Direction::Stuck;
                },
                Direction::Goal => {
                    return Direction::Goal;
                },
                _ => {},
            }
            remaining = remaining - 1;
        }
    }
}

/// Launches four walkers from `start`, one per cardinal direction, and
/// returns the path of the first walker, in launch order, that came back
/// to the start.  Every loop is traversed by two walkers, one in each
/// rotational direction; the first one found names the canonical path.
/// When no walker at all reports `Goal`, the map holds no loop through
/// the start and the discovery fails.
pub fn discover_loop(map: &PipeMap, start: MapCoord) -> (r: Result<PipePath, MazeError>)
    requires
        map@.wf(),
        map.map@.len() < usize::MAX,
    ensures
        (r is Ok) <==> spec_goal_count(map@, start) >= 1,
        (r is Err) ==> r == Err::<PipePath, MazeError>(MazeError::AmbiguousOrMissingLoop),
        r matches Ok(p) ==> p@ == spec_discovered_path(map@, start),
{
    let mut walker_up = MapWalker::new(map, start, Direction::Up);
    let out_up = walker_up.explore();
    if out_up == Direction::Goal {
        return Ok(walker_up.path);
    }
    let mut walker_down = MapWalker::new(map, start, Direction::Down);
    let out_down = walker_down.explore();
    if out_down == Direction::Goal {
        return Ok(walker_down.path);
    }
    let mut walker_left = MapWalker::new(map, start, Direction::Left);
    let out_left = walker_left.explore();
    if out_left == Direction::Goal {
        return Ok(walker_left.path);
    }
    let mut walker_right = MapWalker::new(map, start, Direction::Right);
    let out_right = walker_right.explore();
    if out_right == Direction::Goal {
        return Ok(walker_right.path);
    }
    Err(MazeError::AmbiguousOrMissingLoop)
}

/// How many of the four cardinal walkers from `start` report `Goal`.
pub open spec fn spec_goal_count(g: GridModel, start: MapCoord) -> int {
    (if spec_outcome(g, start, Direction::Up) == Direction::Goal {
        1int
    } else {
        0int
    }) + (if spec_outcome(g, start, Direction::Down) == Direction::Goal {
        1int
    } else {
        0int
    }) + (if spec_outcome(g, start, Direction::Left) == Direction::Goal {
        1int
    } else {
        0int
    }) + (if spec_outcome(g, start, Direction::Right) == Direction::Goal {
        1int
    } else {
        0int
    })
}

/// The first cardinal direction, in the fixed launch order, whose walker
/// reports `Goal`; `Stuck` when none does.  A well-formed loop is found
/// by two walkers, one per rotational direction; this names the first.
pub open spec fn spec_goal_dir(g: GridModel, start: MapCoord) -> Direction {
    if spec_outcome(g, start, Direction::Up) == Direction::Goal {
        Direction::Up
    } else if spec_outcome(g, start, Direction::Down) == Direction::Goal {
        Direction::Down
    } else if spec_outcome(g, start, Direction::Left) == Direction::Goal {
        Direction::Left
    } else if spec_outcome(g, start, Direction::Right) == Direction::Goal {
        Direction::Right
    } else {
        Direction::Stuck
    }
}

/// The path of the walker that reached the goal.
pub open spec fn spec_discovered_path(g: GridModel, start: MapCoord) -> Seq<MapCoord> {
    spec_walk_path(g, start, spec_goal_dir(g, start))
}

/// The distance along the loop to its farthest point: half the length of
/// the discovered path, rounded down.
pub fn farthest_point_distance(path: &PipePath) -> (r: usize)
    ensures
        r == path@.len() / 2,
{
    path.len() / 2
}

/// The canvas role written for a pipe symbol other than the start marker:
/// a vertical crossing, a north-turning bend, a south-turning bend, or a
/// transparent horizontal run.
pub open spec fn spec_role(sym: char) -> char {
    if sym == '|' {
        '|'
    } else if sym == 'L' || sym == 'J' {
        '^'
    } else if sym == 'F' || sym == '7' {
        'V'
    } else {
        '-'
    }
}

/// The role of the start cell, inferred from the directions of its two
/// loop neighbors relative to it: two vertical neighbors make a vertical,
/// a neighbor below makes a south bend, a neighbor above a north bend, and
/// two horizontal neighbors a horizontal.
pub open spec fn spec_assess(rel1: Option<Direction>, rel2: Option<Direction>) -> char {
    match (rel1, rel2) {
        (Some(Direction::Down), Some(Direction::Up)) => '|',
        (Some(Direction::Up), Some(Direction::Down)) => '|',
        (Some(Direction::Down), _) => 'V',
        (_, Some(Direction::Down)) => 'V',
        (Some(Direction::Up), _) => '^',
        (_, Some(Direction::Up)) => '^',
        _ => '-',
    }
}

/// The role written for the start cell of `path`: inferred from the second
/// and the second-to-last locations, the two that connect to it.
pub open spec fn spec_start_mark(path: Seq<MapCoord>) -> char {
    spec_assess(
        path[1].spec_rel_pos_of(path[0]),
        path[path.len() - 2].spec_rel_pos_of(path[0]),
    )
}

/// The role written on the canvas for the path cell `c`.
pub open spec fn spec_cell_mark(g: GridModel, path: Seq<MapCoord>, c: MapCoord) -> char {
    if g.cells[g.flat(c)] == 'S' {
        spec_start_mark(path)
    } else {
        spec_role(g.cells[g.flat(c)])
    }
}

/// The canvas after the first `n` locations of `path` have been marked:
/// blank everywhere else.
pub open spec fn spec_canvas_prefix(g: GridModel, path: Seq<MapCoord>, n: int) -> Seq<char>
    decreases n,
{
    if n <= 0 {
        Seq::new(g.cells.len(), |i: int| '.')
    } else {
        spec_canvas_prefix(g, path, n - 1).update(
            g.flat(path[n - 1]),
            spec_cell_mark(g, path, path[n - 1]),
        )
    }
}

/// The canvas that projects the whole of `path` onto a blank copy of `g`.
pub open spec fn spec_canvas(g: GridModel, path: Seq<MapCoord>) -> Seq<char> {
    spec_canvas_prefix(g, path, path.len() as int)
}

/// The per-row scan state of the interior count: whether the scan stands
/// inside the loop, the unmatched bend of an open slide (`'X'` when none),
/// the tally of the interior region being crossed, and the total counted
/// so far.
pub ghost struct ScanState {
    pub is_inside: bool,
    pub sliding: char,
    pub cache: nat,
    pub total: nat,
}

/// The state a row scan starts in, carrying the running total.
pub open spec fn scan_start(total: nat) -> ScanState {
    ScanState { is_inside: false, sliding: 'X', cache: 0, total }
}

/// One cell of the row scan.  A vertical toggles the inside flag, flushing
/// the pending tally when an interior region closes.  A horizontal is
/// transparent.  A bend opens a slide, cancels a slide opened by the same
/// role, or closes one opened by the opposite role as a genuine crossing.
/// A blank cell inside the loop is tallied.
pub open spec fn scan_step(st: ScanState, c: char) -> ScanState {
    if c == '|' {
        ScanState {
            is_inside: !st.is_inside,
            sliding: st.sliding,
            cache: if st.is_inside {
                0
            } else {
                st.cache
            },
            total: st.total + if st.is_inside {
                st.cache
            } else {
                0nat
            },
        }
    } else if c == '-' {
        st
    } else if c == '^' {
        if st.sliding == 'X' {
            ScanState { is_inside: st.is_inside, sliding: '^', cache: st.cache, total: st.total }
        } else if st.sliding == '^' {
            ScanState { is_inside: st.is_inside, sliding: 'X', cache: st.cache, total: st.total }
        } else {
            ScanState {
                is_inside: !st.is_inside,
                sliding: 'X',
                cache: if st.is_inside {
                    0
                } else {
                    st.cache
                },
                total: st.total + if st.is_inside {
                    st.cache
                } else {
                    0nat
                },
            }
        }
    } else if c == 'V' {
        if st.sliding == 'X' {
            ScanState { is_inside: st.is_inside, sliding: 'V', cache: st.cache, total: st.total }
        } else if st.sliding == 'V' {
            ScanState { is_inside: st.is_inside, sliding: 'X', cache: st.cache, total: st.total }
        } else {
            ScanState {
                is_inside: !st.is_inside,
                sliding: 'X',
                cache: if st.is_inside {
                    0
                } else {
                    st.cache
                },
                total: st.total + if st.is_inside {
                    st.cache
                } else {
                    0nat
                },
            }
        }
    } else {
        if st.is_inside {
            ScanState {
                is_inside: st.is_inside,
                sliding: st.sliding,
                cache: st.cache + 1,
                total: st.total,
            }
        } else {
            st
        }
    }
}

/// The scan state after reading all of `s`, starting from `st`.
pub open spec fn scan_seq(s: Seq<char>, st: ScanState) -> ScanState
    decreases s.len(),
{
    if s.len() == 0 {
        st
    } else {
        scan_seq(s.skip(1), scan_step(st, s[0]))
    }
}

/// The total after scanning `m` row by row, each row of `cols` cells (the
/// last possibly shorter), the per-row state reset between rows.
pub open spec fn scan_rows(m: Seq<char>, cols: nat, total: nat) -> nat
    decreases m.len(),
{
    if m.len() == 0 || cols == 0 {
        total
    } else {
        let k: int = if cols <= m.len() {
            cols as int
        } else {
            m.len() as int
        };
        scan_rows(m.skip(k), cols, scan_seq(m.take(k), scan_start(total)).total)
    }
}

/// The number of cells of canvas `m` that lie inside the loop drawn on it.
pub open spec fn spec_count_inner(m: Seq<char>, cols: nat) -> nat {
    scan_rows(m, cols, 0)
}

/// Scanning one more cell at the end of a row extends the scan by one step.
proof fn lemma_scan_seq_push(s: Seq<char>, c: char, st: ScanState)
    ensures
        scan_seq(s.push(c), st) == scan_step(scan_seq(s, st), c),
    decreases s.len(),
{
    reveal_with_fuel(scan_seq, 2);
    if s.len() == 0 {
        assert(s.push(c)[0] == c);
        assert(s.push(c).skip(1) =~= Seq::<char>::empty());
        assert(scan_seq(s.push(c), st) == scan_seq(s.push(c).skip(1), scan_step(st, c)));
    } else {
        assert(s.push(c)[0] == s[0]);
        assert(s.push(c).skip(1) =~= s.skip(1).push(c));
        lemma_scan_seq_push(s.skip(1), c, scan_step(st, s[0]));
        assert(scan_seq(s.push(c), st) == scan_seq(s.skip(1).push(c), scan_step(st, s[0])));
    }
}

/// A map that projects a PipePath onto a PipeMap: every loop cell carries
/// its classified role, every other cell is blank.
pub struct PathMap {
    pub map: Vec<char>,
    pub cols: usize,
}

impl PathMap {
    /// Takes two MapCoords adjacent to a third and discerns what the pipe
    /// part connecting to both of them must be.
    fn assess_pipe_connection(
        loc_of_unknown: &MapCoord,
        loc_first_piece: &MapCoord,
        loc_second_piece: &MapCoord,
    ) -> (r: Option<char>)
        requires
            loc_first_piece.spec_rel_pos_of(*loc_of_unknown) is Some,
            loc_second_piece.spec_rel_pos_of(*loc_of_unknown) is Some,
        ensures
            r == Some(
                spec_assess(
                    loc_first_piece.spec_rel_pos_of(*loc_of_unknown),
                    loc_second_piece.spec_rel_pos_of(*loc_of_unknown),
                ),
            ),
    {
        let rel_dir_to_first = loc_first_piece.get_rel_pos_of(loc_of_unknown).unwrap();
        let rel_dir_to_second = loc_second_piece.get_rel_pos_of(loc_of_unknown).unwrap();
        match (rel_dir_to_first, rel_dir_to_second) {
            (Direction::Down, Direction::Up) | (Direction::Up, Direction::Down) => Some('|'),
            (Direction::Down, _) | (_, Direction::Down) => Some('V'),
            (Direction::Up, _) | (_, Direction::Up) => Some('^'),
            _ => Some('-'),
        }
    }

    /// Creates a PathMap from a PipePath and a PipeMap: the canvas starts
    /// blank and every location of the path is marked with its role.
    pub fn create(origin: &PipeMap, path: &PipePath) -> (r: PathMap)
        requires
            origin@.wf(),
            forall|i: int| 0 <= i < path@.len() ==> origin@.in_bounds(#[trigger] path@[i]),
            (exists|i: int|
                0 <= i < path@.len() && origin@.cells[origin@.flat(#[trigger] path@[i])] == 'S')
                ==> ({
                &&& path@.len() >= 2
                &&& path@[1].spec_rel_pos_of(path@[0]) is Some
                &&& path@[path@.len() - 2].spec_rel_pos_of(path@[0]) is Some
            }),
        ensures
            r.map@ == spec_canvas(origin@, path@),
            r.cols == origin.cols,
            r.map@.len() == origin.map@.len(),
    {
        let n = origin.map.len();
        let mut canvas: Vec<char> = Vec::new();
        while canvas.len() < n
            invariant
                canvas@ =~= Seq::new(canvas@.len(), |i: int| '.'),
                canvas@.len() <= n,
            decreases n - canvas@.len(),
        {
            canvas.push('.');
        }
        proof {
            assert(canvas@ =~= spec_canvas_prefix(origin@, path@, 0));
        }
        let mut idx: usize = 0;
        while idx < path.pipe_locs.len()
            invariant
                origin@.wf(),
                n == origin.map@.len(),
                forall|i: int| 0 <= i < path@.len() ==> origin@.in_bounds(#[trigger] path@[i]),
                (exists|i: int|
                    0 <= i < path@.len() && origin@.cells[origin@.flat(#[trigger] path@[i])]
                        == 'S') ==> ({
                    &&& path@.len() >= 2
                    &&& path@[1].spec_rel_pos_of(path@[0]) is Some
                    &&& path@[path@.len() - 2].spec_rel_pos_of(path@[0]) is Some
                }),
                idx <= path@.len(),
                canvas@.len() == n,
                canvas@ == spec_canvas_prefix(origin@, path@, idx as int),
            decreases path@.len() - idx,
        {
            let cell = path.pipe_locs[idx];
            let symbol: char = origin.get_cell(&cell).unwrap();
            proof {
                lemma_flat_in_range(origin@, cell);
                assert(vstd::std_specs::vec::spec_vec_len(&origin.map) == origin.map@.len());
            }
            let spot: usize = cell.row * origin.cols + cell.col;
            let mark: char = match symbol {
                '|' => '|',
                'L' | 'J' => '^',
                'F' | '7' => 'V',
                'S' => {
                    proof {
                        assert(origin@.cells[origin@.flat(path@[idx as int])] == 'S');
                    }
                    let loc_of_unknown = path.pipe_locs[0];
                    let first_loc = path.pipe_locs[1];
                    let last_loc = path.pipe_locs[path.pipe_locs.len() - 2];
                    PathMap::assess_pipe_connection(&loc_of_unknown, &first_loc, &last_loc)
                        .unwrap()
                },
                _ => '-',
            };
            canvas[spot] = mark;
            idx = idx + 1;
        }
        PathMap { map: canvas, cols: origin.cols }
    }

    /// Counts the number of cells surrounded by the path drawn on this
    /// PathMap: a row-by-row parity scan over the roles.
    pub fn count_inner_cells(&self) -> (r: usize)
        requires
            self.cols >= 1,
        ensures
            r == spec_count_inner(self.map@, self.cols as nat),
    {
        let mut inside_counter: usize = 0;
        let len = self.map.len();
        let mut pos: usize = 0;
        proof {
            assert(self.map@.skip(0) =~= self.map@);
        }
        while pos < len
            invariant
                self.cols >= 1,
                len == self.map@.len(),
                pos <= len,
                inside_counter <= pos,
                scan_rows(self.map@.skip(pos as int), self.cols as nat, inside_counter as nat)
                    == spec_count_inner(self.map@, self.cols as nat),
            decreases len - pos,
        {
            let row_end: usize = if self.cols <= len - pos {
                pos + self.cols
            } else {
                len
            };
            let ghost row = self.map@.subrange(pos as int, row_end as int);
            let ghost c0 = inside_counter as nat;
            let ghost st0 = scan_start(c0);
            let mut is_inside: bool = false;
            let mut is_sliding: char = 'X';
            let mut inside_cache: usize = 0;
            let mut j: usize = pos;
            while j < row_end
                invariant
                    pos <= j <= row_end,
                    row_end <= len,
                    len == self.map@.len(),
                    row == self.map@.subrange(pos as int, row_end as int),
                    st0 == scan_start(c0),
                    inside_counter + inside_cache <= j,
                    c0 <= pos,
                    (ScanState {
                        is_inside,
                        sliding: is_sliding,
                        cache: inside_cache as nat,
                        total: inside_counter as nat,
                    }) == scan_seq(row.take((j - pos) as int), st0),
                decreases row_end - j,
            {
                let c = self.map[j];
                proof {
                    assert(row.take(((j + 1) - pos) as int) =~= row.take((j - pos) as int).push(
                        row[(j - pos) as int],
                    ));
                    assert(row[(j - pos) as int] == c);
                    lemma_scan_seq_push(row.take((j - pos) as int), c, st0);
                }
                if c == '|' {
                    if is_inside {
                        inside_counter = inside_counter + inside_cache;
                        inside_cache = 0;
                    }
                    is_inside = !is_inside;
                } else if c == '-' {
                    // transparent: part of a slide between bends
                } else if c == '^' {
                    if is_sliding == 'X' {
                        is_sliding = '^';
                    } else if is_sliding == '^' {
                        is_sliding = 'X';
                    } else {
                        is_sliding = 'X';
                        if is_inside {
                            inside_counter = inside_counter + inside_cache;
                            inside_cache = 0;
                        }
                        is_inside = !is_inside;
                    }
                } else if c == 'V' {
                    if is_sliding == 'X' {
                        is_sliding = 'V';
                    } else if is_sliding == 'V' {
                        is_sliding = 'X';
                    } else {
                        is_sliding = 'X';
                        if is_inside {
                            inside_counter = inside_counter + inside_cache;
                            inside_cache = 0;
                        }
                        is_inside = !is_inside;
                    }
                } else {
                    if is_inside {
                        inside_cache = inside_cache + 1;
                    }
                }
                j = j + 1;
            }
            proof {
                let k: int = row_end - pos;
                assert(row.take(k) =~= row);
                assert(self.map@.skip(pos as int).take(k) =~= row);
                assert(self.map@.skip(pos as int).skip(k) =~= self.map@.skip(row_end as int));
            }
            pos = row_end;
        }
        proof {
            assert(self.map@.skip(len as int) =~= Seq::<char>::empty());
        }
        inside_counter
    }
}

/// The number of occurrences of `c` in `s`.
pub open spec fn char_count(s: Seq<char>, c: char) -> nat
    decreases s.len(),
{
    if s.len() == 0 {
        0
    } else {
        (if s[0] == c {
            1nat
        } else {
            0nat
        }) + char_count(s.skip(1), c)
    }
}

/// The index of the first newline in `s`, or `s.len()` when there is none.
pub open spec fn text_width(s: Seq<char>) -> int
    decreases s.len(),
{
    if s.len() == 0 {
        0
    } else if s[0] == '\n' {
        0
    } else {
        1 + text_width(s.skip(1))
    }
}

/// The text is a rectangular pipe map: every line as wide as the first,
/// no trailing newline, and nothing but pipe symbols between the newlines.
pub open spec fn grid_text_wf(s: Seq<char>) -> bool {
    let w = text_width(s);
    &&& w >= 1
    &&& w < s.len()
    &&& (s.len() as int + 1) % (w + 1) == 0
    &&& forall|i: int| 0 <= i < s.len() ==> ((#[trigger] s[i] == '\n') <==> (i % (w + 1) == w))
    &&& forall|i: int| 0 <= i < s.len() ==> (#[trigger] s[i] == '\n' || valid_symbol(s[i]))
}

/// The grid a rectangular text denotes: the newlines dropped, the width of
/// the first line as the column count.
pub open spec fn spec_grid_of(s: Seq<char>) -> GridModel {
    let w = text_width(s);
    let rows = (s.len() as int + 1) / (w + 1);
    GridModel {
        cells: Seq::new((rows * w) as nat, |i: int| s[(i / w) * (w + 1) + (i % w)]),
        rows: rows as nat,
        cols: w as nat,
    }
}

/// The coordinate of the first start marker of `g`.
pub open spec fn spec_start_of(g: GridModel) -> MapCoord {
    let i = first_index_of(g.cells, 'S');
    MapCoord { row: (i / g.cols as int) as usize, col: (i % g.cols as int) as usize }
}

/// The index of the first occurrence of `c` in `s`, or `s.len()` when
/// there is none.
pub open spec fn first_index_of(s: Seq<char>, c: char) -> int
    decreases s.len(),
{
    if s.len() == 0 {
        0
    } else if s[0] == c {
        0
    } else {
        1 + first_index_of(s.skip(1), c)
    }
}

/// An index before the first occurrence characterizes `first_index_of`.
proof fn lemma_first_index_of(s: Seq<char>, c: char, i: int)
    requires
        0 <= i <= s.len(),
        forall|j: int| 0 <= j < i ==> s[j] != c,
        i < s.len() ==> s[i] == c,
    ensures
        first_index_of(s, c) == i,
    decreases s.len(),
{
    if s.len() == 0 {
    } else if i == 0 {
    } else {
        assert(s[0] != c);
        lemma_first_index_of(s.skip(1), c, i - 1);
    }
}

/// `text_width` obeys the same characterization for newlines.
proof fn lemma_text_width_is(s: Seq<char>, i: int)
    requires
        0 <= i <= s.len(),
        forall|j: int| 0 <= j < i ==> s[j] != '\n',
        i < s.len() ==> s[i] == '\n',
    ensures
        text_width(s) == i,
    decreases s.len(),
{
    if s.len() == 0 {
    } else if i == 0 {
    } else {
        assert(s[0] != '\n');
        lemma_text_width_is(s.skip(1), i - 1);
    }
}

/// A sequence that holds an occurrence counts at least one.
proof fn lemma_char_count_pos(s: Seq<char>, c: char, i: int)
    requires
        0 <= i < s.len(),
        s[i] == c,
    ensures
        char_count(s, c) >= 1,
    decreases s.len(),
{
    if i > 0 {
        lemma_char_count_pos(s.skip(1), c, i - 1);
    }
}

/// Two distinct occurrences count at least two.
proof fn lemma_char_count_two(s: Seq<char>, c: char, i: int, j: int)
    requires
        0 <= i < j < s.len(),
        s[i] == c,
        s[j] == c,
    ensures
        char_count(s, c) >= 2,
    decreases s.len(),
{
    if i == 0 {
        lemma_char_count_pos(s.skip(1), c, j - 1);
    } else {
        lemma_char_count_two(s.skip(1), c, i - 1, j - 1);
    }
}

/// A count of zero means no occurrence at all.
proof fn lemma_char_count_zero(s: Seq<char>, c: char)
    requires
        char_count(s, c) == 0,
    ensures
        forall|i: int| 0 <= i < s.len() ==> s[i] != c,
    decreases s.len(),
{
    if s.len() > 0 {
        lemma_char_count_zero(s.skip(1), c);
        assert forall|i: int| 0 <= i < s.len() implies s[i] != c by {
            if i > 0 {
                assert(s.skip(1)[i - 1] != c);
            }
        }
    }
}

impl PipeMap {
    /// Builds a PipeMap from its textual form: one line per row, all lines
    /// of one width, no return at the end.
    pub fn parse(input: &str) -> (r: PipeMap)
        requires
            grid_text_wf(input@),
            input@.len() < usize::MAX,
        ensures
            r@ == spec_grid_of(input@),
            r@.wf(),
            r.map@.len() < input@.len(),
    {
        proof {
            assert forall|i: int| 0 <= i < input@.len() implies '\0' <= #[trigger] input@[i]
                <= '\u{7f}' by {
                assert(input@[i] == '\n' || valid_symbol(input@[i]));
            }
            assert(vstd::string::is_ascii(input));
        }
        let len: usize = input.unicode_len();
        // locate the first newline: the column count
        let mut w: usize = 0;
        while w < len && (input.get_ascii(w) as char) != '\n'
            invariant
                w <= len,
                len == input@.len(),
                vstd::string::is_ascii(input),
                forall|j: int| 0 <= j < w ==> input@[j] != '\n',
            decreases len - w,
        {
            w = w + 1;
        }
        proof {
            lemma_text_width_is(input@, w as int);
        }
        let row_count: usize = (len + 1) / (w + 1);
        let col_count: usize = w;
        let ghost g = spec_grid_of(input@);
        let mut pipes_graph: Vec<char> = Vec::new();
        let mut r_idx: usize = 0;
        while r_idx < row_count
            invariant
                len == input@.len(),
                vstd::string::is_ascii(input),
                g == spec_grid_of(input@),
                grid_text_wf(input@),
                w == text_width(input@),
                col_count == w,
                row_count == (len + 1) / (w + 1),
                r_idx <= row_count,
                pipes_graph@.len() == r_idx * w,
                forall|j: int|
                    0 <= j < pipes_graph@.len() ==> #[trigger] pipes_graph@[j] == g.cells[j],
            decreases row_count - r_idx,
        {
            let mut k: usize = 0;
            while k < col_count
                invariant
                    len == input@.len(),
                    vstd::string::is_ascii(input),
                    g == spec_grid_of(input@),
                    grid_text_wf(input@),
                    w == text_width(input@),
                    col_count == w,
                    row_count == (len + 1) / (w + 1),
                    r_idx < row_count,
                    k <= col_count,
                    pipes_graph@.len() == r_idx * w + k,
                    forall|j: int|
                        0 <= j < pipes_graph@.len() ==> #[trigger] pipes_graph@[j] == g.cells[j],
                decreases col_count - k,
            {
                proof {
                    lemma_parse_index(input@, r_idx as int, k as int);
                }
                let pos: usize = r_idx * (col_count + 1) + k;
                let b: u8 = input.get_ascii(pos);
                let c: char = b as char;
                proof {
                    assert(input@[pos as int] <= '\u{7f}');
                    assert(c == input@[pos as int]);
                    assert(g.cells[(r_idx * w + k) as int] == input@[pos as int]) by {
                        lemma_parse_cell(input@, r_idx as int, k as int);
                    }
                }
                pipes_graph.push(c);
                k = k + 1;
            }
            proof {
                assert((r_idx as int + 1) * (w as int) == r_idx as int * (w as int) + w) by (nonlinear_arith);
            }
            r_idx = r_idx + 1;
        }
        let result = PipeMap { map: pipes_graph, rows: row_count, cols: col_count };
        proof {
            lemma_parse_shape(input@);
            assert(result.map@ =~= g.cells);
            assert(result@ == g);
            assert forall|i: int| 0 <= i < g.cells.len() implies valid_symbol(
                #[trigger] g.cells[i],
            ) by {
                lemma_parse_cell_valid(input@, i);
            }
            assert(g.wf());
        }
        result
    }

    /// Gets the MapCoord of the first cell in the map that equals
    /// `find_me`, or `None` when no cell does.
    pub fn get_map_coord(&self, find_me: char) -> (r: Option<MapCoord>)
        requires
            self.cols >= 1,
        ensures
            match r {
                Some(c) => exists|i: int|
                    {
                        &&& 0 <= i < self.map@.len()
                        &&& #[trigger] self.map@[i] == find_me
                        &&& (forall|j: int| 0 <= j < i ==> self.map@[j] != find_me)
                        &&& c.row == i / (self.cols as int)
                        &&& c.col == i % (self.cols as int)
                    },
                None => forall|i: int| 0 <= i < self.map@.len() ==> self.map@[i] != find_me,
            },
    {
        let len = self.map.len();
        let mut location: usize = 0;
        while location < len
            invariant
                location <= len,
                len == self.map@.len(),
                self.cols >= 1,
                forall|j: int| 0 <= j < location ==> self.map@[j] != find_me,
            decreases len - location,
        {
            if self.map[location] == find_me {
                let row: usize = location / self.cols;
                let col: usize = location % self.cols;
                return Some(MapCoord { row, col });
            }
            location = location + 1;
        }
        None
    }

    /// How many cells of the map hold the symbol `c`.
    pub fn count_symbol(&self, c: char) -> (r: usize)
        ensures
            r == char_count(self.map@, c),
    {
        proof {
            lemma_char_count_bound(self.map@, c);
            assert(self.map@.skip(0) =~= self.map@);
        }
        let len = self.map.len();
        let mut count: usize = 0;
        let mut i: usize = 0;
        while i < len
            invariant
                i <= len,
                len == self.map@.len(),
                count <= i,
                char_count(self.map@, c) == count + char_count(self.map@.skip(i as int), c),
            decreases len - i,
        {
            proof {
                assert(self.map@.skip(i as int).skip(1) =~= self.map@.skip(i + 1));
                assert(self.map@.skip(i as int)[0] == self.map@[i as int]);
                lemma_char_count_bound(self.map@.skip(i + 1), c);
            }
            if self.map[i] == c {
                count = count + 1;
            }
            i = i + 1;
        }
        proof {
            assert(self.map@.skip(len as int) =~= Seq::<char>::empty());
        }
        count
    }
}

/// A character count never exceeds the sequence length.
proof fn lemma_char_count_bound(s: Seq<char>, c: char)
    ensures
        char_count(s, c) <= s.len(),
    decreases s.len(),
{
    if s.len() > 0 {
        lemma_char_count_bound(s.skip(1), c);
    }
}

/// In a rectangular text, the flattened position of row `r`, column `k`
/// lies inside the text and is not a newline.
proof fn lemma_parse_index(s: Seq<char>, r: int, k: int)
    requires
        grid_text_wf(s),
        0 <= r < (s.len() as int + 1) / (text_width(s) + 1),
        0 <= k < text_width(s),
    ensures
        0 <= r * (text_width(s) + 1) + k < s.len(),
        (r * (text_width(s) + 1) + k) % (text_width(s) + 1) != text_width(s),
{
    let w = text_width(s);
    let rows = (s.len() as int + 1) / (w + 1);
    assert((s.len() as int + 1) == rows * (w + 1)) by {
        vstd::arithmetic::div_mod::lemma_fundamental_div_mod(s.len() as int + 1, w + 1);
    }
    assert(r * (w + 1) + k < rows * (w + 1) - 1) by (nonlinear_arith)
        requires
            r < rows,
            0 <= k < w,
            w >= 1,
            0 <= r,
    ;
    assert((r * (w + 1) + k) % (w + 1) == k) by {
        vstd::arithmetic::div_mod::lemma_mod_multiples_vanish(r, k, w + 1);
        vstd::arithmetic::div_mod::lemma_small_mod(k as nat, (w + 1) as nat);
    }
}

/// The grid cell `(r, k)` of a rectangular text is the text character at
/// the flattened position.
proof fn lemma_parse_cell(s: Seq<char>, r: int, k: int)
    requires
        grid_text_wf(s),
        0 <= r < (s.len() as int + 1) / (text_width(s) + 1),
        0 <= k < text_width(s),
    ensures
        spec_grid_of(s).cells[r * text_width(s) + k] == s[r * (text_width(s) + 1) + k],
{
    let w = text_width(s);
    let rows = (s.len() as int + 1) / (w + 1);
    let i = r * w + k;
    assert(0 <= r * w + k < rows * w) by (nonlinear_arith)
        requires
            0 <= r < rows,
            0 <= k < w,
            w >= 1,
    ;
    assert(i / w == r && i % w == k) by {
        vstd::arithmetic::div_mod::lemma_fundamental_div_mod_converse(i, w, r, k);
    }
}

/// Every cell of the grid of a rectangular text is a valid symbol.
proof fn lemma_parse_cell_valid(s: Seq<char>, i: int)
    requires
        grid_text_wf(s),
        0 <= i < spec_grid_of(s).cells.len(),
    ensures
        valid_symbol(spec_grid_of(s).cells[i]),
{
    let w = text_width(s);
    let rows = (s.len() as int + 1) / (w + 1);
    let r = i / w;
    let k = i % w;
    assert(w >= 1);
    vstd::arithmetic::div_mod::lemma_fundamental_div_mod(i, w);
    assert(0 <= k < w) by {
        vstd::arithmetic::div_mod::lemma_mod_bound(i, w);
    }
    assert(0 <= r < rows) by (nonlinear_arith)
        requires
            i == w * r + k,
            0 <= i < rows * w,
            0 <= k < w,
            w >= 1,
    ;
    lemma_parse_index(s, r, k);
    lemma_parse_cell(s, r, k);
    assert(s[r * (w + 1) + k] != '\n');
}

/// The cell count of the grid of a rectangular text matches its shape.
proof fn lemma_parse_shape(s: Seq<char>)
    requires
        grid_text_wf(s),
    ensures
        spec_grid_of(s).cells.len() == spec_grid_of(s).rows * spec_grid_of(s).cols,
        spec_grid_of(s).rows >= 1,
        spec_grid_of(s).cells.len() < s.len(),
{
    let w = text_width(s);
    let rows = (s.len() as int + 1) / (w + 1);
    assert((s.len() as int + 1) == rows * (w + 1)) by {
        vstd::arithmetic::div_mod::lemma_fundamental_div_mod(s.len() as int + 1, w + 1);
    }
    assert(rows >= 1) by (nonlinear_arith)
        requires
            (s.len() as int + 1) == rows * (w + 1),
            s.len() >= 1,
            w >= 1,
    ;
    assert(rows * w < s.len()) by (nonlinear_arith)
        requires
            (s.len() as int + 1) == rows * (w + 1),
            rows >= 1,
            1 <= w < s.len(),
    ;
}

/// Checks that a text denotes a rectangular pipe map: every line as wide
/// as the first, nothing but known symbols, no return at the end.
pub fn validate_grid(input: &str) -> (r: bool)
    ensures
        r == grid_text_wf(input@),
{
    if !input.is_ascii() {
        // a well-formed map holds only ascii symbols
        proof {
            if grid_text_wf(input@) {
                assert forall|i: int| 0 <= i < input@.len() implies '\0' <= #[trigger] input@[i]
                    <= '\u{7f}' by {
                    assert(input@[i] == '\n' || valid_symbol(input@[i]));
                }
            }
        }
        return false;
    }
    let len: usize = input.unicode_len();
    let mut w: usize = 0;
    while w < len && (input.get_ascii(w) as char) != '\n'
        invariant
            w <= len,
            len == input@.len(),
            vstd::string::is_ascii(input),
            forall|j: int| 0 <= j < w ==> input@[j] != '\n',
        decreases len - w,
    {
        w = w + 1;
    }
    proof {
        lemma_text_width_is(input@, w as int);
    }
    if w < 1 || w >= len {
        return false;
    }
    proof {
        // `len + 1` and `len - w` differ by one full line width, so they
        // agree modulo the line stride
        vstd::arithmetic::div_mod::lemma_mod_multiples_vanish(
            1,
            len as int - w as int,
            w as int + 1,
        );
    }
    if (len - w) % (w + 1) != 0 {
        return false;
    }
    let mut i: usize = 0;
    while i < len
        invariant
            i <= len,
            len == input@.len(),
            vstd::string::is_ascii(input),
            w == text_width(input@),
            1 <= w < len,
            (len + 1) % (w + 1) == 0,
            forall|j: int|
                0 <= j < i ==> ((#[trigger] input@[j] == '\n') <==> (j % (w + 1) == w as int)),
            forall|j: int| 0 <= j < i ==> (#[trigger] input@[j] == '\n' || valid_symbol(input@[j])),
        decreases len - i,
    {
        let b: u8 = input.get_ascii(i);
        let c: char = b as char;
        proof {
            assert(input@[i as int] <= '\u{7f}');
            assert(c == input@[i as int]);
        }
        let expected_newline: bool = i % (w + 1) == w;
        if (c == '\n') != expected_newline {
            return false;
        }
        if c != '\n' && !(c == '|' || c == '-' || c == 'L' || c == 'J' || c == '7' || c == 'F'
            || c == '.' || c == 'S') {
            return false;
        }
        i = i + 1;
    }
    true
}

/// The invariant a walker launched at `start` maintains: the path starts
/// at `start`, ends on the current cell, stays on the map, and runs over
/// cardinally adjacent cells, with the departed cell just behind the
/// current one.
pub open spec fn walk_inv(g: GridModel, start: MapCoord, w: WalkState) -> bool {
    &&& w.path.len() >= 1
    &&& w.path[0] == start
    &&& w.path.last() == w.cur
    &&& forall|i: int| 0 <= i < w.path.len() ==> g.in_bounds(#[trigger] w.path[i])
    &&& forall|i: int|
        0 <= i < w.path.len() - 1 ==> (#[trigger] w.path[i + 1]).spec_rel_pos_of(w.path[i]) is Some
    &&& (w.path.len() >= 2 ==> w.last == w.path[w.path.len() - 2])
    &&& (w.path.len() == 1 ==> w.last == w.cur)
}

/// A step onto a neighbor stays on the map, and lands on an adjacent cell.
proof fn lemma_neighbor_adjacent(g: GridModel, c: MapCoord, dir: Direction, n: MapCoord)
    requires
        g.bounded(),
        g.in_bounds(c),
        g.neighbor(c, dir) == Some(n),
    ensures
        g.in_bounds(n),
        n.spec_rel_pos_of(c) is Some,
{
    match dir {
        Direction::Up => {
            assert(n.spec_is_above(c));
        },
        Direction::Down => {
            assert(n.spec_is_below(c));
        },
        Direction::Left => {
            assert(n.spec_is_left_of(c));
        },
        Direction::Right => {
            assert(n.spec_is_right_of(c));
        },
        Direction::Stuck => {},
        Direction::Goal => {},
    }
}

/// Adjacency reads the same from either end.
proof fn lemma_rel_pos_symmetric(a: MapCoord, b: MapCoord)
    ensures
        (a.spec_rel_pos_of(b) is Some) == (b.spec_rel_pos_of(a) is Some),
{
}

/// A shove preserves the walk invariant.
proof fn lemma_shove_inv(g: GridModel, start: MapCoord, w: WalkState, dir: Direction)
    requires
        g.bounded(),
        walk_inv(g, start, w),
    ensures
        walk_inv(g, start, spec_shove(g, w, dir)),
{
    match g.neighbor(w.cur, dir) {
        Some(n) => {
            lemma_neighbor_adjacent(g, w.cur, dir, n);
            let w1 = spec_shove(g, w, dir);
            assert(w1.path.last() == n);
            assert forall|i: int| 0 <= i < w1.path.len() - 1 implies (#[trigger] w1.path[i
                + 1]).spec_rel_pos_of(w1.path[i]) is Some by {
                if i < w.path.len() - 1 {
                    assert(w.path[i + 1].spec_rel_pos_of(w.path[i]) is Some);
                } else {
                    assert(w1.path[i] == w.cur);
                }
            }
        },
        None => {},
    }
}

/// One walker step preserves the walk invariant; a `Goal` report leaves
/// the walker standing on a start cell it had already reached.
proof fn lemma_walk_step_inv(g: GridModel, start: MapCoord, w: WalkState)
    requires
        g.bounded(),
        walk_inv(g, start, w),
    ensures
        walk_inv(g, start, spec_walk_step(g, w).0),
        spec_walk_step(g, w).1 == Direction::Goal ==> {
            &&& spec_walk_step(g, w).0 == w
            &&& w.path.len() >= 2
            &&& g.cell(w.cur) == Some('S')
        },
{
    match g.transit(w.last, w.cur) {
        Err(_) => {},
        Ok(d) => {
            if d == Direction::Stuck || d == Direction::Goal {
                if d == Direction::Goal {
                    assert(w.last != w.cur);
                    if w.path.len() == 1 {
                        assert(w.last == w.cur);
                    }
                }
            } else {
                match g.neighbor(w.cur, d) {
                    None => {},
                    Some(n) => {
                        lemma_neighbor_adjacent(g, w.cur, d, n);
                        let w1 = spec_walk_step(g, w).0;
                        assert forall|i: int| 0 <= i < w1.path.len() - 1 implies (
                        #[trigger] w1.path[i + 1]).spec_rel_pos_of(w1.path[i]) is Some by {
                            if i < w.path.len() - 1 {
                                assert(w.path[i + 1].spec_rel_pos_of(w.path[i]) is Some);
                            } else {
                                assert(w1.path[i] == w.cur);
                            }
                        }
                    },
                }
            }
        },
    }
}

/// A whole exploration preserves the walk invariant; when it ends in
/// `Goal` the walker stands on a start cell with at least one step behind
/// it.
proof fn lemma_explore_inv(g: GridModel, start: MapCoord, w: WalkState, fuel: nat)
    requires
        g.bounded(),
        walk_inv(g, start, w),
    ensures
        walk_inv(g, start, spec_explore(g, w, fuel).0),
        spec_explore(g, w, fuel).1 == Direction::Goal ==> {
            &&& spec_explore(g, w, fuel).0.path.len() >= 2
            &&& g.cell(spec_explore(g, w, fuel).0.cur) == Some('S')
        },
    decreases fuel,
{
    if fuel == 0 {
    } else {
        lemma_walk_step_inv(g, start, w);
        let (w1, d) = spec_walk_step(g, w);
        if d == Direction::Stuck || d == Direction::Goal {
        } else {
            lemma_explore_inv(g, start, w1, (fuel - 1) as nat);
        }
    }
}

/// A freshly launched walker satisfies the walk invariant.
proof fn lemma_init_inv(g: GridModel, start: MapCoord, dir: Direction)
    requires
        g.bounded(),
        g.in_bounds(start),
    ensures
        walk_inv(g, start, spec_init(g, start, dir)),
{
    let w0 = WalkState { last: start, cur: start, path: seq![start] };
    assert(walk_inv(g, start, w0));
    lemma_shove_inv(g, start, w0, dir);
}

/// Every walker launch ends in a terminal report: it either gets stuck or
/// arrives back at the start.  Together with the contract of
/// `discover_loop` this pins the four-walker story: discovery succeeds
/// exactly when one walker reports `Goal`, and the other three report
/// `Stuck`.
pub proof fn lemma_outcome_terminal(g: GridModel, start: MapCoord, dir: Direction)
    ensures
        spec_outcome(g, start, dir) == Direction::Stuck || spec_outcome(g, start, dir)
            == Direction::Goal,
{
    lemma_explore_terminal(g, spec_init(g, start, dir), spec_fuel(g));
}

/// The second component of `spec_explore` is always a terminal report.
proof fn lemma_explore_terminal(g: GridModel, w: WalkState, fuel: nat)
    ensures
        spec_explore(g, w, fuel).1 == Direction::Stuck || spec_explore(g, w, fuel).1
            == Direction::Goal,
    decreases fuel,
{
    if fuel > 0 {
        let (w1, d) = spec_walk_step(g, w);
        if !(d == Direction::Stuck || d == Direction::Goal) {
            lemma_explore_terminal(g, w1, (fuel - 1) as nat);
        }
    }
}

/// The parity of a walk: after `i` adjacent steps the row/column sum has
/// changed parity `i` times.
proof fn lemma_walk_parity(path: Seq<MapCoord>, i: int)
    requires
        forall|j: int|
            0 <= j < path.len() - 1 ==> (#[trigger] path[j + 1]).spec_rel_pos_of(path[j]) is Some,
        0 <= i < path.len(),
    ensures
        (path[i].row + path[i].col + i) % 2 == (path[0].row + path[0].col) % 2,
    decreases i,
{
    if i > 0 {
        lemma_walk_parity(path, i - 1);
        assert(path[(i - 1) + 1].spec_rel_pos_of(path[i - 1]) is Some);
    }
}

/// A closed rectilinear walk takes an even number of steps: each step
/// flips the parity of the row/column sum, and the walk ends on the cell
/// it started from.
pub proof fn lemma_closed_walk_even(path: Seq<MapCoord>)
    requires
        path.len() >= 1,
        forall|j: int|
            0 <= j < path.len() - 1 ==> (#[trigger] path[j + 1]).spec_rel_pos_of(path[j]) is Some,
        path[0] == path.last(),
    ensures
        (path.len() - 1) % 2 == 0,
{
    lemma_walk_parity(path, path.len() - 1);
}

/// Classifying one discovered path against one grid is a pure function of
/// the two: every repetition of the classification yields the same count.
pub proof fn lemma_classification_repeatable(
    g: GridModel,
    path: Seq<MapCoord>,
    first: nat,
    second: nat,
)
    requires
        first == spec_count_inner(spec_canvas(g, path), g.cols),
        second == spec_count_inner(spec_canvas(g, path), g.cols),
    ensures
        first == second,
{
}

/// The discovered loop is closed: it starts and ends on the unique start
/// cell, and its step count is even.
pub proof fn lemma_discovered_loop_closed(g: GridModel, start: MapCoord)
    requires
        g.wf(),
        g.bounded(),
        g.cell(start) == Some('S'),
        char_count(g.cells, 'S') == 1,
        spec_goal_count(g, start) >= 1,
    ensures
        spec_discovered_path(g, start).len() >= 2,
        spec_discovered_path(g, start)[0] == start,
        spec_discovered_path(g, start).last() == start,
        (spec_discovered_path(g, start).len() - 1) % 2 == 0,
{
    let dir = spec_goal_dir(g, start);
    assert(spec_outcome(g, start, dir) == Direction::Goal);
    lemma_init_inv(g, start, dir);
    lemma_explore_inv(g, start, spec_init(g, start, dir), spec_fuel(g));
    let w = spec_explore(g, spec_init(g, start, dir), spec_fuel(g)).0;
    lemma_unique_start(g, start, w.cur);
    lemma_closed_walk_even(w.path);
}

/// With exactly one start symbol on the map, any cell that shows it is
/// the start coordinate.
proof fn lemma_unique_start(g: GridModel, start: MapCoord, c: MapCoord)
    requires
        g.wf(),
        g.cell(start) == Some('S'),
        char_count(g.cells, 'S') == 1,
        g.cell(c) == Some('S'),
    ensures
        c == start,
{
    if c != start {
        lemma_flat_in_range(g, c);
        lemma_flat_in_range(g, start);
        if g.flat(c) == g.flat(start) {
            // equal flattened positions force equal coordinates
            vstd::arithmetic::div_mod::lemma_fundamental_div_mod_converse(
                g.flat(c),
                g.cols as int,
                c.row as int,
                c.col as int,
            );
            vstd::arithmetic::div_mod::lemma_fundamental_div_mod_converse(
                g.flat(start),
                g.cols as int,
                start.row as int,
                start.col as int,
            );
        } else if g.flat(c) < g.flat(start) {
            lemma_char_count_two(g.cells, 'S', g.flat(c), g.flat(start));
        } else {
            lemma_char_count_two(g.cells, 'S', g.flat(start), g.flat(c));
        }
    }
}

/// A sequence without an occurrence counts zero.
proof fn lemma_char_count_none(s: Seq<char>, c: char)
    requires
        forall|i: int| 0 <= i < s.len() ==> s[i] != c,
    ensures
        char_count(s, c) == 0,
    decreases s.len(),
{
    if s.len() > 0 {
        assert(s.skip(1).len() == s.len() - 1);
        assert forall|i: int| 0 <= i < s.skip(1).len() implies s.skip(1)[i] != c by {
            assert(s.skip(1)[i] == s[i + 1]);
        }
        lemma_char_count_none(s.skip(1), c);
    }
}

/// Runs the whole pipeline over the textual map: validation, loop
/// discovery from the start cell, and interior classification.  Returns
/// the distance to the farthest point of the loop and the number of cells
/// the loop encloses.
pub fn analyze_pipe_network(input: &str) -> (r: Result<(usize, usize), MazeError>)
    requires
        input@.len() < usize::MAX,
    ensures
        ({
            let s = input@;
            let g = spec_grid_of(s);
            let start = spec_start_of(g);
            let p = spec_discovered_path(g, start);
            match r {
                Ok(ans) => {
                    &&& grid_text_wf(s)
                    &&& char_count(g.cells, 'S') == 1
                    &&& spec_goal_count(g, start) >= 1
                    &&& ans.0 == p.len() / 2
                    &&& ans.1 == spec_count_inner(spec_canvas(g, p), g.cols)
                },
                Err(MazeError::MalformedGrid) => !grid_text_wf(s) || char_count(g.cells, 'S')
                    != 1,
                Err(MazeError::AmbiguousOrMissingLoop) => {
                    &&& grid_text_wf(s)
                    &&& char_count(g.cells, 'S') == 1
                    &&& spec_goal_count(g, start) == 0
                },
            }
        }),
{
    if !validate_grid(input) {
        return Err(MazeError::MalformedGrid);
    }
    let pipes = PipeMap::parse(input);
    let ghost g = spec_grid_of(input@);
    let start_count = pipes.count_symbol('S');
    if start_count != 1 {
        return Err(MazeError::MalformedGrid);
    }
    let start_opt = pipes.get_map_coord('S');
    proof {
        if start_opt is None {
            lemma_char_count_none(g.cells, 'S');
        }
    }
    let start = start_opt.unwrap();
    proof {
        let i = choose|i: int|
            {
                &&& 0 <= i < pipes.map@.len()
                &&& #[trigger] pipes.map@[i] == 'S'
                &&& (forall|j: int| 0 <= j < i ==> pipes.map@[j] != 'S')
                &&& start.row == i / (pipes.cols as int)
                &&& start.col == i % (pipes.cols as int)
            };
        lemma_parse_shape(input@);
        assert(g.cols as int * g.rows as int == g.rows as int * g.cols as int) by (nonlinear_arith);
        vstd::arithmetic::div_mod::lemma_multiply_divide_lt(i, g.cols as int, g.rows as int);
        vstd::arithmetic::div_mod::lemma_mod_bound(i, g.cols as int);
        assert(g.in_bounds(start));
        vstd::arithmetic::div_mod::lemma_fundamental_div_mod(i, g.cols as int);
        assert(g.flat(start) == i);
        assert(g.cell(start) == Some('S'));
        lemma_first_index_of(g.cells, 'S', i);
        assert(start == spec_start_of(g));
    }
    let path = match discover_loop(&pipes, start) {
        Ok(p) => p,
        Err(_) => {
            return Err(MazeError::AmbiguousOrMissingLoop);
        },
    };
    proof {
        let dir = spec_goal_dir(g, start);
        assert(spec_outcome(g, start, dir) == Direction::Goal);
        lemma_init_inv(g, start, dir);
        lemma_explore_inv(g, start, spec_init(g, start, dir), spec_fuel(g));
        let w = spec_explore(g, spec_init(g, start, dir), spec_fuel(g)).0;
        assert(path@ == w.path);
        if exists|i: int| 0 <= i < path@.len() && g.cells[g.flat(#[trigger] path@[i])] == 'S' {
            lemma_unique_start(g, start, w.cur);
            assert(path@.last() == start);
            assert(path@[(path@.len() - 2) + 1].spec_rel_pos_of(path@[path@.len() - 2]) is Some);
            lemma_rel_pos_symmetric(path@[path@.len() - 1], path@[path@.len() - 2]);
        }
    }
    let farthest = farthest_point_distance(&path);
    let drawing = PathMap::create(&pipes, &path);
    let inner_count = drawing.count_inner_cells();
    Ok((farthest, inner_count))
}

/// Scanning a concatenation scans the two parts in order.
proof fn lemma_scan_seq_concat(a: Seq<char>, b: Seq<char>, st: ScanState)
    ensures
        scan_seq(a + b, st) == scan_seq(b, scan_seq(a, st)),
    decreases a.len(),
{
    if a.len() == 0 {
        assert(a + b =~= b);
    } else {
        assert((a + b)[0] == a[0]);
        assert((a + b).skip(1) =~= a.skip(1) + b);
        lemma_scan_seq_concat(a.skip(1), b, scan_step(st, a[0]));
    }
}

/// A run of horizontal roles is transparent to the scan.
proof fn lemma_scan_horizontal_run(run: Seq<char>, st: ScanState)
    requires
        forall|i: int| 0 <= i < run.len() ==> run[i] == '-',
    ensures
        scan_seq(run, st) == st,
    decreases run.len(),
{
    if run.len() > 0 {
        assert(run[0] == '-');
        assert forall|i: int| 0 <= i < run.skip(1).len() implies run.skip(1)[i] == '-' by {
            assert(run.skip(1)[i] == run[i + 1]);
        }
        lemma_scan_horizontal_run(run.skip(1), st);
    }
}

/// The slide rule of the row scan: a slide opened and closed by two bends
/// of the same role never toggles the inside flag, while two bends of
/// opposite roles always toggle it.  Either way the slide is closed
/// afterward.
pub proof fn lemma_bend_pairing(st: ScanState, run: Seq<char>, open_bend: char, close_bend: char)
    requires
        st.sliding == 'X',
        open_bend == '^' || open_bend == 'V',
        close_bend == '^' || close_bend == 'V',
        forall|i: int| 0 <= i < run.len() ==> run[i] == '-',
    ensures
        ({
            let fin = scan_seq(seq![open_bend] + run + seq![close_bend], st);
            &&& fin.sliding == 'X'
            &&& (open_bend == close_bend ==> fin.is_inside == st.is_inside)
            &&& (open_bend != close_bend ==> fin.is_inside == !st.is_inside)
        }),
{
    reveal_with_fuel(scan_seq, 2);
    let s1 = seq![open_bend];
    let s2 = seq![close_bend];
    assert(s1[0] == open_bend && s2[0] == close_bend);
    assert(s1.skip(1) =~= Seq::<char>::empty());
    assert(s2.skip(1) =~= Seq::<char>::empty());
    lemma_scan_seq_concat(s1 + run, s2, st);
    lemma_scan_seq_concat(s1, run, st);
    let opened = scan_step(st, open_bend);
    assert(scan_seq(s1, st) == opened);
    lemma_scan_horizontal_run(run, opened);
    assert(scan_seq(s2, opened) == scan_step(opened, close_bend));
}

/// An in-bounds coordinate's row-major position lies inside the buffer.
proof fn lemma_flat_in_range(g: GridModel, c: MapCoord)
    requires
        g.wf(),
        g.in_bounds(c),
    ensures
        0 <= g.flat(c) < g.cells.len(),
{
    assert(c.row * g.cols + c.col < g.rows * g.cols) by (nonlinear_arith)
        requires
            c.row < g.rows,
            c.col < g.cols,
    ;
}

} // verus!
