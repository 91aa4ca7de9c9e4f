//! A guard walking a grid of open and blocked cells: facing one of four
//! directions, stepping forward over open cells and turning right at a
//! blocked one.  The walker here carries the guard's position, facing and
//! map, and computes each prospective step.

use vstd::prelude::*;

verus! {

/// A facing, clockwise from up.
#[derive(Clone, Copy, Debug, PartialEq, Eq, Structural)]
pub enum Direction {
    Up,
    Right,
    Down,
    Left,
}

/// The quarter turn to the right.
pub open spec fn spec_turn(d: Direction) -> Direction {
    match d {
        Direction::Up => Direction::Right,
        Direction::Right => Direction::Down,
        Direction::Down => Direction::Left,
        Direction::Left => Direction::Up,
    }
}

pub open spec fn dir_dx(d: Direction) -> int {
    match d {
        Direction::Up => 0,
        Direction::Right => 1,
        Direction::Down => 0,
        Direction::Left => -1,
    }
}

pub open spec fn dir_dy(d: Direction) -> int {
    match d {
        Direction::Up => -1,
        Direction::Right => 0,
        Direction::Down => 1,
        Direction::Left => 0,
    }
}

impl Direction {
    /// Turn right.
    pub fn next(&self) -> (r: Direction)
        ensures
            r == spec_turn(*self),
    {
        match self {
            Direction::Up => Direction::Right,
            Direction::Right => Direction::Down,
            Direction::Down => Direction::Left,
            Direction::Left => Direction::Up,
        }
    }
}

impl Default for Direction {
    /// The guard starts facing up.
    fn default() -> (r: Direction)
        ensures
            r == Direction::Up,
    {
        Direction::Up
    }
}

/// The guard's position and facing over a map of open (`true`) and blocked
/// (`false`) cells.
pub struct Walker {
    pub position: Option<(u32, u32)>,
    pub direction: Direction,
    pub map: Vec<Vec<bool>>,
}

pub open spec fn map_view(rows: Seq<Vec<bool>>) -> Seq<Seq<bool>> {
    rows.map_values(|r: Vec<bool>| r@)
}

/// The cell one step ahead of `(x, y)` facing `d`, when it is on the map.
pub open spec fn spec_next_position(
    m: Seq<Seq<bool>>,
    x: int,
    y: int,
    d: Direction,
) -> Option<(int, int)> {
    let nx = x + dir_dx(d);
    let ny = y + dir_dy(d);
    if nx < 0 || ny < 0 || nx > u32::MAX || ny > u32::MAX {
        None
    } else if ny >= m.len() || nx >= m[ny].len() {
        None
    } else {
        Some((nx, ny))
    }
}

impl Walker {
    /// A guard at `position`, facing up.
    pub fn new(position: (u32, u32), map: Vec<Vec<bool>>) -> (r: Walker)
        ensures
            r.position == Some(position),
            r.direction == Direction::Up,
            map_view(r.map@) == map_view(map@),
    {
        Walker { position: Some(position), direction: Direction::Up, map }
    }

    /// The same guard facing `direction`.
    pub fn with_direction(self, direction: Direction) -> (r: Walker)
        ensures
            r.position == self.position,
            r.direction == direction,
            map_view(r.map@) == map_view(self.map@),
    {
        Walker { direction, ..self }
    }

    /// The same map with one more cell blocked.
    pub fn with_wall(self, wall: (u32, u32)) -> (r: Walker)
        requires
            (wall.1 as int) < self.map@.len(),
            (wall.0 as int) < self.map@[wall.1 as int]@.len(),
        ensures
            r.position == self.position,
            r.direction == self.direction,
            map_view(r.map@) == map_view(self.map@).update(
                wall.1 as int,
                map_view(self.map@)[wall.1 as int].update(wall.0 as int, false),
            ),
    {
        let (x, y) = wall;
        let mut w = self;
        let mut row = Vec::new();
        core::mem::swap(&mut row, &mut w.map[y as usize]);
        row.set(x as usize, false);
        core::mem::swap(&mut row, &mut w.map[y as usize]);
        proof {
            assert(map_view(w.map@) =~= map_view(self.map@).update(
                wall.1 as int,
                map_view(self.map@)[wall.1 as int].update(wall.0 as int, false),
            ));
        }
        w
    }

    /// Where the next step ahead would land, when it stays on the map.
    pub fn next_position(&self) -> (r: Option<(u32, u32)>)
        ensures
            match self.position {
                None => r is None,
                Some((x, y)) => match (
                    r,
                    spec_next_position(map_view(self.map@), x as int, y as int, self.direction),
                ) {
                    (Some((rx, ry)), Some((sx, sy))) => rx as int == sx && ry as int == sy,
                    (None, None) => true,
                    _ => false,
                },
            },
    {
        let (x, y) = match self.position {
            Some(p) => p,
            None => {
                return None;
            },
        };
        let (dx, dy): (i64, i64) = match self.direction {
            Direction::Up => (0, -1),
            Direction::Right => (1, 0),
            Direction::Down => (0, 1),
            Direction::Left => (-1, 0),
        };
        let nx = x as i64 + dx;
        let ny = y as i64 + dy;
        if nx < 0 || ny < 0 || nx > u32::MAX as i64 || ny > u32::MAX as i64 {
            return None;
        }
        let nxu = nx as usize;
        let nyu = ny as usize;
        if nyu >= self.map.len() {
            return None;
        }
        proof {
            assert(map_view(self.map@)[ny as int] == self.map@[ny as int]@);
        }
        if nxu >= self.map[nyu].len() {
            return None;
        }
        Some((nx as u32, ny as u32))
    }
}

} // verus!
