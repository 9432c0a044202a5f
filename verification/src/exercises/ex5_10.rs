//! A race car on a grid track.
//!
//! The car has a position and a velocity, both in grid cells. An action
//! changes each velocity component by at most one; the components stay
//! between 0 and 5. Every step costs one unit of reward. A car that leaves
//! the track is put back on the starting line; the episode ends when the car
//! is about to cross the finish line.
use std::collections::HashMap;

use rand::rngs::StdRng;
use vstd::prelude::*;

use crate::bases::mdp::{
    pair_key, pair_key_spec, Action, Enviorment, Policy, PolicyModel, SolveError, State,
};
use crate::bases::monte_carlo_control::{
    first_visit_monte_carlo_control, is_control_run, is_failed_run, soften, softened, Learning,
};
use crate::utils::fixed::ONE;
use crate::utils::random::choose_one;

verus! {

/// The grid, row by row from the starting line upwards, with the cells of the
/// finish line and of the starting line as (column, row) pairs.
pub struct RaceTrack {
    pub track: Vec<Vec<bool>>,
    pub finish_line: Vec<(u32, u32)>,
    pub starting_line: Vec<(u32, u32)>,
}

/// A change of the velocity, one increment for each direction.
#[derive(PartialEq, Eq, Clone, Copy, Hash, Debug)]
pub struct CarAction {
    pub velocity_increment: (i32, i32),
}

/// Where the car is and how fast it moves, each as (column, row).
#[derive(PartialEq, Eq, Clone, Copy, Hash, Debug)]
pub struct CarState {
    pub velocity: (u32, u32),
    pub position: (u32, u32),
}

/// Whether the cell in column `x` of row `y` is one of the cells of `line`.
pub open spec fn on_line(line: Seq<(u32, u32)>, x: int, y: int) -> bool {
    exists|i: int| 0 <= i < line.len() && (#[trigger] line[i]).0 == x && line[i].1 == y
}

/// The highest row among the first `n` cells of `line`.
pub open spec fn highest_row(line: Seq<(u32, u32)>, n: nat) -> int
    decreases n,
{
    if n == 0 {
        0
    } else if n == 1 {
        line[0].1 as int
    } else {
        let rest = highest_row(line, (n - 1) as nat);
        if line[n - 1].1 >= rest {
            line[n - 1].1 as int
        } else {
            rest
        }
    }
}

/// The lowest row among the first `n` cells of `line`.
pub open spec fn lowest_row(line: Seq<(u32, u32)>, n: nat) -> int
    decreases n,
{
    if n == 0 {
        0
    } else if n == 1 {
        line[0].1 as int
    } else {
        let rest = lowest_row(line, (n - 1) as nat);
        if line[n - 1].1 < rest {
            line[n - 1].1 as int
        } else {
            rest
        }
    }
}

/// Whether the cell that the car reaches with its present velocity lies on
/// the finish line, or beyond it: in a row no higher than the line's lowest
/// and no lower than its highest cell, at or past the column of its first.
pub open spec fn crosses_finish(line: Seq<(u32, u32)>, state: CarState) -> bool {
    let x = state.position.0 + state.velocity.0;
    let y = state.position.1 + state.velocity.1;
    on_line(line, x, y) || (y <= lowest_row(line, line.len()) && y >= highest_row(
        line,
        line.len(),
    ) && x >= line[0].0)
}

/// Every row is as wide as the first.
pub open spec fn is_rectangular(track: Seq<Vec<bool>>) -> bool {
    forall|y: int| 0 <= y < track.len() ==> (#[trigger] track[y]).len() == track[0].len()
}

/// Whether a car in column `x` of row `y` has left the track: the cell is on
/// neither line and it, or one of its four neighbours, is off the grid or not
/// part of the track.
pub open spec fn hits_boundary(racetrack: RaceTrack, x: int, y: int) -> bool {
    let track = racetrack.track@;
    if on_line(racetrack.starting_line@, x, y) || on_line(racetrack.finish_line@, x, y) {
        false
    } else if y + 1 >= track.len() || y < 1 || x + 1 >= track[0].len() || x < 1 {
        true
    } else {
        !track[y][x] || !track[y + 1][x] || !track[y - 1][x] || !track[y][x + 1] || !track[y][x
            - 1]
    }
}

/// Whether every cell exists that has to be looked at to say if a car in
/// column `x` of row `y` has left the track: the cell itself and, as long as
/// the cells looked at are part of the track, the cells above, below and
/// beside it. In a rectangular grid they always exist.
pub open spec fn can_look_around(racetrack: RaceTrack, x: int, y: int) -> bool {
    let track = racetrack.track@;
    if on_line(racetrack.starting_line@, x, y) || on_line(racetrack.finish_line@, x, y) {
        true
    } else if y + 1 >= track.len() || y < 1 || x + 1 >= track[0].len() || x < 1 {
        true
    } else {
        &&& x < track[y].len()
        &&& track[y][x] ==> x < track[y + 1].len()
        &&& track[y][x] && track[y + 1][x] ==> x < track[y - 1].len()
        &&& track[y][x] && track[y + 1][x] && track[y - 1][x] ==> x + 1 < track[y].len()
    }
}

/// Whether column `x` lies in the stretch of track that starts at column
/// `start` and is `width` cells wide.
pub open spec fn in_stretch(start: int, width: int, x: int) -> bool {
    start <= x < start + width
}

/// Says whether the cell in column `x` of row `y` is one of the cells of
/// `line`.
fn line_holds(line: &[(u32, u32)], x: u64, y: u64) -> (held: bool)
    ensures
        held == on_line(line@, x as int, y as int),
{
    let mut i: usize = 0;
    while i < line.len()
        invariant
            0 <= i <= line.len(),
            forall|j: int| 0 <= j < i ==> !((#[trigger] line@[j]).0 == x && line@[j].1 == y),
        decreases line.len() - i,
    {
        if line[i].0 as u64 == x && line[i].1 as u64 == y {
            return true;
        }
        i += 1;
    }
    false
}

/// Says whether `position` is one of the cells of the finish line.
pub fn is_in_finish_line(finish_line: &[(u32, u32)], position: (u32, u32)) -> (held: bool)
    ensures
        held == on_line(finish_line@, position.0 as int, position.1 as int),
{
    line_holds(finish_line, position.0 as u64, position.1 as u64)
}

/// Says whether the car crosses the finish line with its next move. The
/// line must have a cell.
pub fn intersects_finish_line(finish_line: &[(u32, u32)], state: &CarState) -> (crossed: bool)
    requires
        finish_line.len() > 0,
    ensures
        crossed == crosses_finish(finish_line@, *state),
{
    let mut max_y: u32 = finish_line[0].1;
    let mut min_y: u32 = finish_line[0].1;
    let mut i: usize = 1;
    while i < finish_line.len()
        invariant
            1 <= i <= finish_line.len(),
            max_y == highest_row(finish_line@, i as nat),
            min_y == lowest_row(finish_line@, i as nat),
        decreases finish_line.len() - i,
    {
        if finish_line[i].1 >= max_y {
            max_y = finish_line[i].1;
        }
        if finish_line[i].1 < min_y {
            min_y = finish_line[i].1;
        }
        i += 1;
    }
    let finish_x: u32 = finish_line[0].0;
    let car_x: u64 = state.position.0 as u64 + state.velocity.0 as u64;
    let car_y: u64 = state.position.1 as u64 + state.velocity.1 as u64;
    if line_holds(finish_line, car_x, car_y) {
        return true;
    }
    car_y <= min_y as u64 && car_y >= max_y as u64 && car_x >= finish_x as u64
}

/// Says whether a car at `position`, as (column, row), has left the track.
/// The cells that it looks at must exist.
pub fn intersects_boundary(position: (usize, usize), racetrack: &RaceTrack) -> (hit: bool)
    requires
        can_look_around(*racetrack, position.0 as int, position.1 as int),
    ensures
        hit == hits_boundary(*racetrack, position.0 as int, position.1 as int),
{
    let (x, y) = position;
    let ends = line_holds(racetrack.finish_line.as_slice(), x as u64, y as u64);
    let starts = line_holds(racetrack.starting_line.as_slice(), x as u64, y as u64);
    if starts || ends {
        return false;
    }
    if y >= racetrack.track.len() || racetrack.track.len() - y <= 1 || y < 1 {
        return true;
    }
    if x >= racetrack.track[0].len() || racetrack.track[0].len() - x <= 1 || x < 1 {
        return true;
    }
    !racetrack.track[y][x] || !racetrack.track[y + 1][x] || !racetrack.track[y - 1][x]
        || !racetrack.track[y][x + 1] || !racetrack.track[y][x - 1]
}

/// In a rectangular grid every cell that has to be looked at exists.
pub proof fn lemma_rectangle_can_be_looked_around(racetrack: RaceTrack, x: int, y: int)
    requires
        is_rectangular(racetrack.track@),
    ensures
        can_look_around(racetrack, x, y),
{
    let track = racetrack.track@;
    if 1 <= y && y + 1 < track.len() {
        assert(track[y].len() == track[0].len());
        assert(track[y + 1].len() == track[0].len());
        assert(track[y - 1].len() == track[0].len());
    }
}

/// Lays out a grid of `max_width` columns: one row for each pair of a
/// width and a first column, as far as both lists go, with the cells of
/// the stretch marked as track.
pub fn make_track(squares: &[i32], starting_points: &[i32], max_width: i32) -> (track: Vec<
    Vec<bool>,
>)
    ensures
        track.len() == if squares.len() <= starting_points.len() {
            squares.len()
        } else {
            starting_points.len()
        },
        forall|y: int|
            0 <= y < track.len() ==> (#[trigger] track[y]).len() == if max_width > 0 {
                max_width as int
            } else {
                0
            },
        forall|y: int, x: int|
            0 <= y < track.len() && 0 <= x < track[y].len() ==> #[trigger] track[y][x]
                == in_stretch(starting_points[y] as int, squares[y] as int, x),
{
    let mut track: Vec<Vec<bool>> = Vec::new();
    let mut y: usize = 0;
    while y < squares.len() && y < starting_points.len()
        invariant
            track.len() == y,
            y <= squares.len(),
            y <= starting_points.len(),
            forall|r: int|
                0 <= r < y ==> (#[trigger] track[r]).len() == if max_width > 0 {
                    max_width as int
                } else {
                    0
                },
            forall|r: int, c: int|
                0 <= r < y && 0 <= c < track[r].len() ==> #[trigger] track[r][c] == in_stretch(
                    starting_points[r] as int,
                    squares[r] as int,
                    c,
                ),
        decreases squares.len() - y,
    {
        let start: i64 = starting_points[y] as i64;
        let end: i64 = start + squares[y] as i64;
        let mut track_slice: Vec<bool> = Vec::new();
        let mut x: i32 = 0;
        while x < max_width
            invariant
                0 <= x,
                max_width > 0 ==> x <= max_width,
                max_width <= 0 ==> x == 0,
                y < squares.len(),
                y < starting_points.len(),
                track_slice.len() == x,
                start == starting_points[y as int],
                end == start + squares[y as int],
                forall|c: int|
                    0 <= c < x ==> #[trigger] track_slice[c] == in_stretch(
                        start as int,
                        squares[y as int] as int,
                        c,
                    ),
            decreases max_width - x,
        {
            track_slice.push(x as i64 >= start && (x as i64) < end);
            x += 1;
        }
        track.push(track_slice);
        y += 1;
    }
    track
}

/// Says whether a car in column `x` of row `y` of a rectangular grid has
/// left the track.
fn look_around(x: usize, y: usize, racetrack: &RaceTrack) -> (hit: bool)
    requires
        is_rectangular(racetrack.track@),
    ensures
        hit == hits_boundary(*racetrack, x as int, y as int),
{
    proof {
        lemma_rectangle_can_be_looked_around(*racetrack, x as int, y as int);
    }
    intersects_boundary((x, y), racetrack)
}

/// The symbol that stands for the cell in column `x` of row `y` in a picture
/// of the track: `.` beside the track, `S` on the starting row, `F` on the
/// finish line, `B` where a car would leave the track, `#` elsewhere.
pub open spec fn track_symbol(
    start: int,
    width: int,
    finish_line: Seq<(u32, u32)>,
    racetrack: RaceTrack,
    x: int,
    y: int,
) -> char {
    if !in_stretch(start, width, x) {
        '.'
    } else if y == 0 {
        'S'
    } else if on_line(finish_line, x, y) {
        'F'
    } else if hits_boundary(racetrack, x, y) {
        'B'
    } else {
        '#'
    }
}

/// Draws the track as rows of symbols, the highest row first.
pub fn graph_track(
    squares: &[i32],
    starting_points: &[i32],
    finish_line: &[(u32, u32)],
    track: &RaceTrack,
    max_width: i32,
) -> (picture: Vec<Vec<char>>)
    requires
        is_rectangular(track.track@),
    ensures
        picture.len() == if squares.len() <= starting_points.len() {
            squares.len()
        } else {
            starting_points.len()
        },
        forall|r: int|
            0 <= r < picture.len() ==> (#[trigger] picture[r]).len() == if max_width > 0 {
                max_width as int
            } else {
                0
            },
        forall|r: int, x: int|
            0 <= r < picture.len() && 0 <= x < picture[r].len() ==> #[trigger] picture[r][x]
                == track_symbol(
                starting_points[picture.len() - 1 - r] as int,
                squares[picture.len() - 1 - r] as int,
                finish_line@,
                *track,
                x,
                picture.len() - 1 - r,
            ),
{
    let rows: usize = if squares.len() <= starting_points.len() {
        squares.len()
    } else {
        starting_points.len()
    };
    let mut picture: Vec<Vec<char>> = Vec::new();
    let mut y: usize = rows;
    while y > 0
        invariant
            y <= rows,
            rows <= squares.len(),
            rows <= starting_points.len(),
            picture.len() == rows - y,
            is_rectangular(track.track@),
            forall|r: int|
                0 <= r < picture.len() ==> (#[trigger] picture[r]).len() == if max_width > 0 {
                    max_width as int
                } else {
                    0
                },
            forall|r: int, x: int|
                0 <= r < picture.len() && 0 <= x < picture[r].len() ==> #[trigger] picture[r][x]
                    == track_symbol(
                    starting_points[rows - 1 - r] as int,
                    squares[rows - 1 - r] as int,
                    finish_line@,
                    *track,
                    x,
                    rows - 1 - r,
                ),
        decreases y,
    {
        y -= 1;
        let start: i64 = starting_points[y] as i64;
        let end: i64 = start + squares[y] as i64;
        let mut line: Vec<char> = Vec::new();
        let mut x: i32 = 0;
        while x < max_width
            invariant
                0 <= x,
                max_width > 0 ==> x <= max_width,
                max_width <= 0 ==> x == 0,
                y < rows,
                rows <= squares.len(),
                rows <= starting_points.len(),
                line.len() == x,
                start == starting_points[y as int],
                end == start + squares[y as int],
                is_rectangular(track.track@),
                forall|c: int|
                    0 <= c < x ==> #[trigger] line[c] == track_symbol(
                        start as int,
                        squares[y as int] as int,
                        finish_line@,
                        *track,
                        c,
                        y as int,
                    ),
            decreases max_width - x,
        {
            let symbol: char = if (x as i64) < start || x as i64 >= end {
                '.'
            } else if y == 0 {
                'S'
            } else if line_holds(finish_line, x as u64, y as u64) {
                'F'
            } else if look_around(x as usize, y, track) {
                'B'
            } else {
                '#'
            };
            line.push(symbol);
            x += 1;
        }
        picture.push(line);
    }
    picture
}

/// The width of each row of the course, from the starting row upwards.
pub open spec fn course_widths() -> Seq<i32> {
    seq![
        6i32, 6, 6, 7, 7, 7, 7, 7, 7, 7, 8, 8, 8, 8, 8, 8, 8, 8, 9, 9, 9, 9, 9, 9, 9, 10, 17, 17,
        16, 15, 15, 14,
    ]
}

/// The first column of each row of the course, from the starting row upwards.
pub open spec fn course_offsets() -> Seq<i32> {
    seq![
        3i32, 3, 3, 2, 2, 2, 2, 2, 2, 2, 1, 1, 1, 1, 1, 1, 1, 1, 0, 0, 0, 0, 0, 0, 0, 0, 0, 0,
        1, 2, 2, 3,
    ]
}

/// The course: 32 rows of 17 columns that bend to the right at the top, a
/// starting line of four cells in the bottom row and a finish line of six
/// cells in the last column.
pub fn get_race_track() -> (racetrack: RaceTrack)
    ensures
        racetrack.well_formed(),
        racetrack.track.len() == 32,
        forall|y: int| 0 <= y < 32 ==> (#[trigger] racetrack.track[y]).len() == 17,
        forall|y: int, x: int|
            0 <= y < 32 && 0 <= x < 17 ==> #[trigger] racetrack.track[y][x] == in_stretch(
                course_offsets()[y] as int,
                course_widths()[y] as int,
                x,
            ),
        racetrack.finish_line@ == seq![
            (16u32, 26u32),
            (16u32, 27u32),
            (16u32, 28u32),
            (16u32, 29u32),
            (16u32, 30u32),
            (16u32, 31u32),
        ],
        racetrack.starting_line@ == seq![(4u32, 0u32), (5u32, 0u32), (6u32, 0u32), (7u32, 0u32)],
{
    let squares: Vec<i32> = vec![
        6, 6, 6, 7, 7, 7, 7, 7, 7, 7, 8, 8, 8, 8, 8, 8, 8, 8, 9, 9, 9, 9, 9, 9, 9, 10, 17, 17,
        16, 15, 15, 14,
    ];
    let starting_points: Vec<i32> = vec![
        3, 3, 3, 2, 2, 2, 2, 2, 2, 2, 1, 1, 1, 1, 1, 1, 1, 1, 0, 0, 0, 0, 0, 0, 0, 0, 0, 0, 1, 2,
        2, 3,
    ];
    let finish_line: Vec<(u32, u32)> = vec![
        (16, 26),
        (16, 27),
        (16, 28),
        (16, 29),
        (16, 30),
        (16, 31),
    ];
    let starting_line: Vec<(u32, u32)> = vec![(4, 0), (5, 0), (6, 0), (7, 0)];
    assert(squares@ =~= course_widths());
    assert(starting_points@ =~= course_offsets());
    let track = make_track(squares.as_slice(), starting_points.as_slice(), 17);
    RaceTrack { track, finish_line, starting_line }
}

impl State for CarState {
    /// Sixteen bits for each of the four components: the key tells apart
    /// all states whose components stay below 65536.
    open spec fn key_spec(self) -> u64 {
        ((((self.position.0 % 65536) * 65536 + (self.position.1 % 65536)) * 65536 + (
        self.velocity.0 % 65536)) * 65536 + (self.velocity.1 % 65536)) as u64
    }

    fn key(&self) -> (k: u64) {
        let px: u64 = (self.position.0 % 65536) as u64;
        let py: u64 = (self.position.1 % 65536) as u64;
        let vx: u64 = (self.velocity.0 % 65536) as u64;
        let vy: u64 = (self.velocity.1 % 65536) as u64;
        ((px * 65536 + py) * 65536 + vx) * 65536 + vy
    }
}

impl Action for CarAction {
    /// The two increments, each shifted to be non-negative, side by side.
    open spec fn key_spec(self) -> u64 {
        ((self.velocity_increment.0 + 2147483648) * 4294967296 + (self.velocity_increment.1
            + 2147483648)) as u64
    }

    proof fn key_is_injective(first: Self, second: Self) {
    }

    fn key(&self) -> (k: u64) {
        let ax: u64 = (self.velocity_increment.0 as i64 + 2147483648) as u64;
        let ay: u64 = (self.velocity_increment.1 as i64 + 2147483648) as u64;
        ax * 4294967296 + ay
    }
}

impl RaceTrack {
    /// Whether the track can be raced on: the grid is a rectangle of at
    /// most 65536 rows and columns, and both lines have at least one cell.
    pub fn check(&self) -> (ok: bool)
        ensures
            ok == self.well_formed(),
    {
        if self.finish_line.len() == 0 || self.starting_line.len() == 0 || self.track.len()
            > 65536 {
            return false;
        }
        if self.track.len() == 0 {
            return true;
        }
        let width: usize = self.track[0].len();
        if width > 65536 {
            return false;
        }
        let mut y: usize = 1;
        while y < self.track.len()
            invariant
                1 <= y <= self.track.len(),
                width == self.track[0].len(),
                forall|r: int| 0 <= r < y ==> (#[trigger] self.track[r]).len() == width,
            decreases self.track.len() - y,
        {
            if self.track[y].len() != width {
                return false;
            }
            y += 1;
        }
        true
    }
}

/// A velocity component after an increment: kept between 0 and 5.
pub open spec fn clipped(v: int) -> int {
    if v > 5 {
        5
    } else if v < 0 {
        0
    } else {
        v
    }
}

/// Keeps a velocity component between 0 and 5.
fn clip(v: i64) -> (r: u32)
    ensures
        r == clipped(v as int),
{
    if v > 5 {
        5
    } else if v < 0 {
        0
    } else {
        v as u32
    }
}

/// The nine actions: each increment is -1, 0 or 1.
pub open spec fn all_increments() -> Seq<CarAction> {
    Seq::new(
        9,
        |i: int| CarAction { velocity_increment: ((i / 3 - 1) as i32, (i % 3 - 1) as i32) },
    )
}

/// The 36 states of a car in one cell: each velocity component from 0 to 5.
pub open spec fn cell_states(x: u32, y: u32) -> Seq<CarState> {
    Seq::new(
        36,
        |i: int| CarState { velocity: ((i / 6) as u32, (i % 6) as u32), position: (x, y) },
    )
}

/// The states of a car in the first `n` cells of a row, skipping the cells
/// that are not part of the track.
pub open spec fn row_states(row: Seq<bool>, y: u32, n: nat) -> Seq<CarState>
    decreases n,
{
    if n == 0 {
        Seq::empty()
    } else if row[n - 1] {
        row_states(row, y, (n - 1) as nat) + cell_states((n - 1) as u32, y)
    } else {
        row_states(row, y, (n - 1) as nat)
    }
}

/// The states of a car in the first `n` rows of a grid.
pub open spec fn grid_states(track: Seq<Vec<bool>>, n: nat) -> Seq<CarState>
    decreases n,
{
    if n == 0 {
        Seq::empty()
    } else {
        grid_states(track, (n - 1) as nat) + row_states(
            track[n - 1]@,
            (n - 1) as u32,
            track[n - 1].len() as nat,
        )
    }
}

/// Appends the 36 states of a car in one cell.
fn push_cell_states(states: &mut Vec<CarState>, x: u32, y: u32)
    ensures
        final(states)@ == old(states)@ + cell_states(x, y),
{
    let ghost before = states@;
    let mut vx: u32 = 0;
    while vx < 6
        invariant
            vx <= 6,
            states@.len() == before.len() + 6 * vx,
            forall|j: int| 0 <= j < before.len() ==> states@[j] == before[j],
            forall|j: int|
                0 <= j < 6 * vx ==> states@[before.len() + j] == cell_states(x, y)[j],
        decreases 6 - vx,
    {
        let mut vy: u32 = 0;
        while vy < 6
            invariant
                vx < 6,
                vy <= 6,
                states@.len() == before.len() + 6 * vx + vy,
                forall|j: int| 0 <= j < before.len() ==> states@[j] == before[j],
                forall|j: int|
                    0 <= j < 6 * vx + vy ==> states@[before.len() + j] == cell_states(x, y)[j],
            decreases 6 - vy,
        {
            states.push(CarState { position: (x, y), velocity: (vx, vy) });
            vy += 1;
        }
        vx += 1;
    }
    assert(states@ =~= before + cell_states(x, y));
}

impl Enviorment<CarState, CarAction> for RaceTrack {
    /// The grid is a rectangle of at most 65536 rows and columns, and both
    /// lines have at least one cell.
    open spec fn well_formed(&self) -> bool {
        &&& is_rectangular(self.track@)
        &&& self.track.len() <= 65536
        &&& self.track.len() > 0 ==> self.track[0].len() <= 65536
        &&& self.finish_line.len() > 0
        &&& self.starting_line.len() > 0
    }

    /// A car about to cross the finish line stays where it is, for no
    /// reward. Any other car moves by its velocity, for a reward of -1, and
    /// its velocity changes by the action's increments. If that takes it off
    /// the track it restarts from some cell of the starting line with
    /// velocity (0, 1).
    open spec fn may_respond(
        &self,
        state: CarState,
        action: CarAction,
        next_state: CarState,
        reward: i32,
    ) -> bool {
        if crosses_finish(self.finish_line@, state) {
            next_state == state && reward == 0
        } else {
            let x = state.position.0 + state.velocity.0;
            let y = state.position.1 + state.velocity.1;
            &&& reward == -1
            &&& if x > u32::MAX || y > u32::MAX || hits_boundary(*self, x, y) {
                &&& next_state.velocity == (0u32, 1u32)
                &&& self.starting_line@.contains(next_state.position)
            } else {
                &&& next_state.position == (x as u32, y as u32)
                &&& next_state.velocity.0 == clipped(
                    state.velocity.0 + action.velocity_increment.0,
                )
                &&& next_state.velocity.1 == clipped(
                    state.velocity.1 + action.velocity_increment.1,
                )
            }
        }
    }

    open spec fn actions_model(&self, state: CarState) -> Seq<CarAction> {
        all_increments()
    }

    open spec fn states_model(&self) -> Seq<CarState> {
        grid_states(self.track@, self.track.len() as nat)
    }

    open spec fn terminal_model(&self, state: CarState) -> bool {
        crosses_finish(self.finish_line@, state)
    }

    fn response(&self, state: &CarState, action: &CarAction, rng: &mut StdRng) -> (step: (
        CarState,
        i32,
    )) {
        if self.is_terminal(state) {
            return (*state, 0);
        }
        let x: u64 = state.position.0 as u64 + state.velocity.0 as u64;
        let y: u64 = state.position.1 as u64 + state.velocity.1 as u64;
        let vx: u32 = clip(state.velocity.0 as i64 + action.velocity_increment.0 as i64);
        let vy: u32 = clip(state.velocity.1 as i64 + action.velocity_increment.1 as i64);
        let crashed: bool = x > u32::MAX as u64 || y > u32::MAX as u64 || look_around(
            x as usize,
            y as usize,
            self,
        );
        if crashed {
            match choose_one(&self.starting_line, rng) {
                Some(cell) => (CarState { velocity: (0, 1), position: *cell }, -1),
                None => (*state, -1),
            }
        } else {
            (CarState { velocity: (vx, vy), position: (x as u32, y as u32) }, -1)
        }
    }

    fn is_terminal(&self, state: &CarState) -> (terminal: bool) {
        intersects_finish_line(self.finish_line.as_slice(), state)
    }

    fn posible_actions(&self, state: &CarState) -> (actions: Vec<CarAction>) {
        let mut actions: Vec<CarAction> = Vec::new();
        let mut ax: i32 = -1;
        while ax < 2
            invariant
                -1 <= ax <= 2,
                actions.len() == 3 * (ax + 1),
                forall|j: int| 0 <= j < actions.len() ==> actions[j] == all_increments()[j],
            decreases 2 - ax,
        {
            let mut ay: i32 = -1;
            while ay < 2
                invariant
                    -1 <= ax < 2,
                    -1 <= ay <= 2,
                    actions.len() == 3 * (ax + 1) + (ay + 1),
                    forall|j: int| 0 <= j < actions.len() ==> actions[j] == all_increments()[j],
                decreases 2 - ay,
            {
                actions.push(CarAction { velocity_increment: (ax, ay) });
                ay += 1;
            }
            ax += 1;
        }
        assert(actions@ =~= all_increments());
        actions
    }

    fn get_states(&self) -> (states: Vec<CarState>) {
        let mut states: Vec<CarState> = Vec::new();
        let mut y: usize = 0;
        while y < self.track.len()
            invariant
                self.well_formed(),
                y <= self.track.len(),
                states@ == grid_states(self.track@, y as nat),
            decreases self.track.len() - y,
        {
            let ghost done = states@;
            let mut x: usize = 0;
            while x < self.track[y].len()
                invariant
                    self.well_formed(),
                    y < self.track.len(),
                    x <= self.track[y as int].len(),
                    states@ == done + row_states(self.track[y as int]@, y as u32, x as nat),
                decreases self.track[y as int].len() - x,
            {
                let ghost row_done = states@;
                if self.track[y][x] {
                    push_cell_states(&mut states, x as u32, y as u32);
                }
                assert(states@ =~= done + row_states(
                    self.track[y as int]@,
                    y as u32,
                    (x + 1) as nat,
                ));
                x += 1;
            }
            y += 1;
        }
        states
    }
}

/// The exploration rate with which `solution5_10` starts: 0.2.
pub const EXPLORATION: i64 = 200_000;

/// The value that `solution5_10` gives every state-action pair at first:
/// -500.0.
pub const FIRST_VALUE: i64 = -500_000_000;

/// The action that the first policy prefers: speed up along the track in
/// the lower thirteen rows, slow down above them.
pub open spec fn preferred(state: CarState) -> CarAction {
    if state.position.1 < 13 {
        CarAction { velocity_increment: (0i32, 1i32) }
    } else {
        CarAction { velocity_increment: (0i32, -1i32) }
    }
}

/// The first policy for the first `n` of `states`: epsilon-greedy in each
/// state, with the state's preferred action as the favourite.
pub open spec fn first_policy_model(
    states: Seq<CarState>,
    actions: Seq<CarAction>,
    epsilon: int,
    n: nat,
) -> Map<u128, i64>
    decreases n,
{
    if n == 0 {
        Map::empty()
    } else {
        softened(
            states[n - 1].key_spec(),
            actions,
            first_policy_model(states, actions, epsilon, (n - 1) as nat),
            preferred(states[n - 1]).key_spec(),
            epsilon,
            actions.len(),
        )
    }
}

/// The values after the first `n` of `actions` got the value `value` in the
/// state with key `state`.
pub open spec fn filled(
    state: u64,
    actions: Seq<CarAction>,
    values: Map<u128, i64>,
    value: i64,
    n: nat,
) -> Map<u128, i64>
    decreases n,
{
    if n == 0 {
        values
    } else {
        filled(state, actions, values, value, (n - 1) as nat).insert(
            pair_key_spec(state, actions[n - 1].key_spec()),
            value,
        )
    }
}

/// The first values for the first `n` of `states`: every pair of a state
/// and an action has the same value.
pub open spec fn first_values_model(states: Seq<CarState>, actions: Seq<CarAction>, n: nat) -> Map<
    u128,
    i64,
>
    decreases n,
{
    if n == 0 {
        Map::empty()
    } else {
        filled(
            states[n - 1].key_spec(),
            actions,
            first_values_model(states, actions, (n - 1) as nat),
            FIRST_VALUE,
            actions.len(),
        )
    }
}

/// The states in which an episode may start: at rest on a cell of the
/// starting line.
pub open spec fn start_states_model(starting_line: Seq<(u32, u32)>) -> Seq<CarState> {
    Seq::new(
        starting_line.len(),
        |i: int| CarState { velocity: (0u32, 0u32), position: starting_line[i] },
    )
}

/// The policy from which `solution5_10` starts: epsilon-greedy around the
/// preferred action of each state.
pub fn first_policy(states: &Vec<CarState>, actions: &Vec<CarAction>, epsilon: i64) -> (policy:
    HashMap<u128, i64>)
    requires
        0 <= epsilon <= ONE,
    ensures
        policy@ == first_policy_model(states@, actions@, epsilon as int, states@.len()),
{
    let mut policy: HashMap<u128, i64> = HashMap::new();
    let mut i: usize = 0;
    while i < states.len()
        invariant
            0 <= i <= states.len(),
            0 <= epsilon <= ONE,
            policy@ == first_policy_model(states@, actions@, epsilon as int, i as nat),
        decreases states.len() - i,
    {
        let favourite: CarAction = if states[i].position.1 < 13 {
            CarAction { velocity_increment: (0, 1) }
        } else {
            CarAction { velocity_increment: (0, -1) }
        };
        soften(&mut policy, states[i].key(), actions, favourite.key(), epsilon);
        i += 1;
    }
    policy
}

/// The action values from which `solution5_10` starts: -500.0 for every
/// pair of a state and an action.
pub fn first_values(states: &Vec<CarState>, actions: &Vec<CarAction>) -> (values: HashMap<
    u128,
    i64,
>)
    ensures
        values@ == first_values_model(states@, actions@, states@.len()),
{
    let mut values: HashMap<u128, i64> = HashMap::new();
    let mut i: usize = 0;
    while i < states.len()
        invariant
            0 <= i <= states.len(),
            values@ == first_values_model(states@, actions@, i as nat),
        decreases states.len() - i,
    {
        let state_key: u64 = states[i].key();
        let ghost done = values@;
        let mut j: usize = 0;
        while j < actions.len()
            invariant
                0 <= i < states.len(),
                0 <= j <= actions.len(),
                state_key == states@[i as int].key_spec(),
                values@ == filled(state_key, actions@, done, FIRST_VALUE, j as nat),
            decreases actions.len() - j,
        {
            values.insert(pair_key(state_key, actions[j].key()), FIRST_VALUE);
            j += 1;
        }
        i += 1;
    }
    values
}

/// The states in which an episode may start.
pub fn start_states(racetrack: &RaceTrack) -> (states: Vec<CarState>)
    ensures
        states@ == start_states_model(racetrack.starting_line@),
{
    let mut states: Vec<CarState> = Vec::new();
    let mut i: usize = 0;
    while i < racetrack.starting_line.len()
        invariant
            0 <= i <= racetrack.starting_line.len(),
            states.len() == i,
            forall|j: int|
                0 <= j < i ==> states[j] == (CarState {
                    velocity: (0u32, 0u32),
                    position: racetrack.starting_line[j],
                }),
        decreases racetrack.starting_line.len() - i,
    {
        states.push(CarState { velocity: (0, 0), position: racetrack.starting_line[i] });
        i += 1;
    }
    assert(states@ =~= start_states_model(racetrack.starting_line@));
    states
}

/// What the learner holds before the first episode on the racetrack: the
/// first policy, the first values and no returns.
pub open spec fn first_learning(racetrack: RaceTrack) -> Learning {
    let states = racetrack.states_model();
    Learning {
        probabilities: first_policy_model(
            states,
            all_increments(),
            EXPLORATION as int,
            states.len(),
        ),
        action_values: first_values_model(states, all_increments(), states.len()),
        history: Map::empty(),
    }
}

/// The policy, the action values and the losses are what training on the
/// racetrack leaves, from the first policy and the first values, with
/// episodes that start at rest on the starting line.
pub open spec fn is_racing_run(
    racetrack: RaceTrack,
    trajectories: Seq<Seq<(CarState, CarAction, i32)>>,
    episodes: nat,
    max_steps: nat,
    probabilities: Map<u128, i64>,
    action_values: Map<u128, i64>,
    losses: Seq<i64>,
) -> bool {
    is_control_run(
        &racetrack,
        start_states_model(racetrack.starting_line@),
        trajectories,
        ONE,
        EXPLORATION,
        first_learning(racetrack),
        episodes,
        max_steps,
        probabilities,
        action_values,
        losses,
    )
}

/// Training on the racetrack stopped for `reason` after the episodes of
/// `trajectories`, because the episode after them failed.
pub open spec fn is_racing_failure(
    racetrack: RaceTrack,
    trajectories: Seq<Seq<(CarState, CarAction, i32)>>,
    episodes: nat,
    max_steps: nat,
    reason: SolveError,
) -> bool {
    is_failed_run(
        &racetrack,
        start_states_model(racetrack.starting_line@),
        trajectories,
        ONE,
        EXPLORATION,
        first_learning(racetrack),
        episodes,
        max_steps,
        reason,
    )
}

/// Trains a driver on the racetrack by Monte Carlo control, without
/// discounting and from an exploration rate of 0.2: `episodes` episodes of
/// at most `max_steps` steps each. It returns the final policy, the final
/// action values and the return of each episode.
///
/// A track without a cell cannot be trained on. On any other track training
/// without episodes returns the first policy and the first values, and
/// training stops only at an episode that fails.
pub fn solution5_10(racetrack: RaceTrack, episodes: u32, max_steps: usize, rng: &mut StdRng) -> (outcome:
    Result<(Policy<CarAction>, HashMap<u128, i64>, Vec<i64>), SolveError>)
    requires
        racetrack.well_formed(),
    ensures
        racetrack.states_model().len() == 0 ==> (outcome matches Err(reason) && reason
            == SolveError::MalformedInput),
        (racetrack.states_model().len() > 0 && episodes == 0) ==> (outcome matches Ok(found)
            && found.0@ == PolicyModel::<CarAction>::Stochastic(
            first_learning(racetrack).probabilities,
        ) && found.1@ == first_learning(racetrack).action_values),
        racetrack.states_model().len() > 0 ==> match outcome {
            Ok(found) => {
                &&& found.0@ is Stochastic
                &&& found.2@.len() == episodes
                &&& exists|trajectories: Seq<Seq<(CarState, CarAction, i32)>>| #[trigger]
                    is_racing_run(
                        racetrack,
                        trajectories,
                        episodes as nat,
                        max_steps as nat,
                        found.0@->Stochastic_0,
                        found.1@,
                        found.2@,
                    )
            },
            Err(reason) => {
                &&& reason == SolveError::MalformedInput || reason
                    == SolveError::StepLimitReached
                &&& exists|trajectories: Seq<Seq<(CarState, CarAction, i32)>>| #[trigger]
                    is_racing_failure(
                        racetrack,
                        trajectories,
                        episodes as nat,
                        max_steps as nat,
                        reason,
                    )
            },
        },
{
    let states = racetrack.get_states();
    let mut actions: Vec<CarAction> = Vec::new();
    if states.len() > 0 {
        actions = racetrack.posible_actions(&states[0]);
    } else {
        return Err(SolveError::MalformedInput);
    }
    let init_pol = Policy::Stochastic(first_policy(&states, &actions, EXPLORATION));
    let init_vals = first_values(&states, &actions);
    let init_states = start_states(&racetrack);
    let ghost course = racetrack;
    assert(init_pol@ == PolicyModel::<CarAction>::Stochastic(first_learning(course).probabilities));
    assert(init_vals@ == first_learning(course).action_values);
    let outcome = first_visit_monte_carlo_control(
        init_pol,
        init_vals,
        init_states,
        episodes,
        racetrack,
        EXPLORATION,
        ONE,
        max_steps,
        rng,
    );
    proof {
        let start = Learning {
            probabilities: first_learning(course).probabilities,
            action_values: first_learning(course).action_values,
            history: Map::empty(),
        };
        assert(start == first_learning(course));
        if outcome is Ok {
            let found = outcome->Ok_0;
            let trajectories = choose|trajectories: Seq<Seq<(CarState, CarAction, i32)>>| #[trigger]
                is_control_run(
                    &course,
                    start_states_model(course.starting_line@),
                    trajectories,
                    ONE,
                    EXPLORATION,
                    start,
                    episodes as nat,
                    max_steps as nat,
                    found.0@->Stochastic_0,
                    found.1@,
                    found.2@,
                );
            assert(is_racing_run(
                course,
                trajectories,
                episodes as nat,
                max_steps as nat,
                found.0@->Stochastic_0,
                found.1@,
                found.2@,
            ));
        } else {
            let reason = outcome->Err_0;
            let trajectories = choose|trajectories: Seq<Seq<(CarState, CarAction, i32)>>| #[trigger]
                is_failed_run(
                    &course,
                    start_states_model(course.starting_line@),
                    trajectories,
                    ONE,
                    EXPLORATION,
                    start,
                    episodes as nat,
                    max_steps as nat,
                    reason,
                );
            assert(is_racing_failure(
                course,
                trajectories,
                episodes as nat,
                max_steps as nat,
                reason,
            ));
        }
    }
    outcome
}

} // verus!
