//! The grid and the guard on it: cells, their addresses, and what lies
//! ahead of a guard.

use vstd::prelude::*;

verus! {

/// A cell address: row first, then column, both counted from zero.
#[derive(Clone, Copy, Debug, PartialEq, Eq, PartialOrd, Hash, Structural)]
pub struct Coord {
    pub row: usize,
    pub col: usize,
}

/// One of the four cardinal directions the guard can face.
#[derive(Clone, Copy, Debug, PartialEq, Eq, Hash, Structural)]
pub enum Orientation {
    Up,
    Right,
    Down,
    Left,
}

/// What a cell of the grid holds.  A cell the guard has stood on is
/// `PrevouslySeen`; it can be entered like a `Free` one.
#[derive(Clone, Copy, Debug, PartialEq, Eq, Structural)]
pub enum MapElements {
    Free,
    PrevouslySeen,
    Obstructed,
}

/// The guard: where it stands and which way it faces.
#[derive(Clone, Copy, Debug, PartialEq, Eq, Structural)]
pub struct Player {
    pub orientation: Orientation,
    pub coords: Coord,
}

/// The grid in row-major order together with the guard on it.
#[derive(Clone, Debug)]
pub struct SituationMap {
    pub player: Player,
    pub map: Vec<MapElements>,
    pub map_width: usize,
    pub map_height: usize,
}

/// The mathematical grid that a `SituationMap` stands for.
pub struct Grid {
    pub width: usize,
    pub height: usize,
    pub cells: Seq<MapElements>,
}

impl Orientation {
    /// The orientation a quarter turn clockwise from `self`.
    pub open spec fn turned(self) -> Orientation {
        match self {
            Orientation::Up => Orientation::Right,
            Orientation::Right => Orientation::Down,
            Orientation::Down => Orientation::Left,
            Orientation::Left => Orientation::Up,
        }
    }

    /// Gives the orientation a quarter turn clockwise; `self` stays as it is.
    pub fn rotate_right(&mut self) -> (r: Orientation)
        ensures
            r == old(self).turned(),
            *final(self) == *old(self),
    {
        match *self {
            Orientation::Up => Orientation::Right,
            Orientation::Right => Orientation::Down,
            Orientation::Down => Orientation::Left,
            Orientation::Left => Orientation::Up,
        }
    }
}

/// Four quarter turns clockwise bring every orientation back to itself,
/// and fewer do not.
pub proof fn lemma_four_turns(o: Orientation)
    ensures
        o.turned().turned().turned().turned() == o,
        o.turned() != o,
        o.turned().turned() != o,
        o.turned().turned().turned() != o,
{
}

/// How many cells of `cells` are `PrevouslySeen`.
pub open spec fn count_seen(cells: Seq<MapElements>) -> nat
    decreases cells.len(),
{
    if cells.len() == 0 {
        0
    } else {
        count_seen(cells.drop_last()) + if cells.last() == MapElements::PrevouslySeen {
            1nat
        } else {
            0nat
        }
    }
}

impl Grid {
    /// The cell sequence has exactly one entry per address, and no more
    /// entries than a vector can hold.
    pub open spec fn wf(self) -> bool {
        &&& self.cells.len() == self.width * self.height
        &&& self.cells.len() <= usize::MAX
    }

    /// `c` addresses a cell of the grid.
    pub open spec fn contains(self, c: Coord) -> bool {
        c.row < self.height && c.col < self.width
    }

    /// Where the cell at `c` stands in the row-major sequence.
    pub open spec fn index_of(self, c: Coord) -> int {
        self.width * c.row + c.col
    }

    /// The state of the cell at `c`, or `None` outside the grid.
    pub open spec fn cell_at(self, c: Coord) -> Option<MapElements> {
        if self.contains(c) {
            Some(self.cells[self.index_of(c)])
        } else {
            None
        }
    }

    /// The grid with the cell at `c` replaced by `e`.
    pub open spec fn with_cell(self, c: Coord, e: MapElements) -> Grid {
        Grid { cells: self.cells.update(self.index_of(c), e), ..self }
    }

    /// The neighbour of `c` one step in direction `o`, or `None` where that
    /// neighbour is not a cell of the grid.
    pub open spec fn ahead_of(self, c: Coord, o: Orientation) -> Option<Coord> {
        match o {
            Orientation::Up => if 0 < c.row && c.row - 1 < self.height && c.col < self.width {
                Some(Coord { row: (c.row - 1) as usize, col: c.col })
            } else {
                None
            },
            Orientation::Right => if c.row < self.height && c.col + 1 < self.width {
                Some(Coord { row: c.row, col: (c.col + 1) as usize })
            } else {
                None
            },
            Orientation::Down => if c.row + 1 < self.height && c.col < self.width {
                Some(Coord { row: (c.row + 1) as usize, col: c.col })
            } else {
                None
            },
            Orientation::Left => if c.row < self.height && 0 < c.col && c.col - 1 < self.width {
                Some(Coord { row: c.row, col: (c.col - 1) as usize })
            } else {
                None
            },
        }
    }

    /// How many cells are `PrevouslySeen`.
    pub open spec fn count_visited(self) -> nat {
        count_seen(self.cells)
    }

    /// The two grids have their obstructions in the same places.
    pub open spec fn same_obstructions(self, other: Grid) -> bool {
        &&& self.width == other.width
        &&& self.height == other.height
        &&& self.cells.len() == other.cells.len()
        &&& forall|i: int|
            0 <= i < self.cells.len() ==> (#[trigger] self.cells[i] == MapElements::Obstructed
                <==> other.cells[i] == MapElements::Obstructed)
    }
}

/// The number of ticks after which a patrol is cut short: four for every
/// cell, one for each state a guard on the grid can be in.
pub open spec fn tick_budget(g: Grid) -> nat {
    4 * g.cells.len()
}

/// A cell of a well-formed grid has its place inside the cell sequence.
pub proof fn lemma_index_in_range(g: Grid, c: Coord)
    requires
        g.wf(),
        g.contains(c),
    ensures
        0 <= g.width * c.row <= g.index_of(c) < g.cells.len(),
{
    let w = g.width as int;
    let h = g.height as int;
    let r = c.row as int;
    let k = c.col as int;
    assert(0 <= w * r && w * r + w <= w * h) by (nonlinear_arith)
        requires
            0 <= r < h,
            0 <= w,
    ;
}

/// Two different cells of a grid have different places in the cell sequence.
pub proof fn lemma_index_injective(g: Grid, a: Coord, b: Coord)
    requires
        g.contains(a),
        g.contains(b),
        g.index_of(a) == g.index_of(b),
    ensures
        a == b,
{
    let w = g.width as int;
    let ra = a.row as int;
    let rb = b.row as int;
    if ra < rb {
        assert(w * ra + w <= w * rb) by (nonlinear_arith)
            requires
                ra < rb,
                0 <= w,
        ;
    } else if rb < ra {
        assert(w * rb + w <= w * ra) by (nonlinear_arith)
            requires
                rb < ra,
                0 <= w,
        ;
    }
}

/// Writing one cell changes the count of seen cells by what that cell
/// gains or loses, and by nothing else.
pub proof fn lemma_count_seen_update(cells: Seq<MapElements>, i: int, e: MapElements)
    requires
        0 <= i < cells.len(),
    ensures
        count_seen(cells.update(i, e)) + (if cells[i] == MapElements::PrevouslySeen {
            1nat
        } else {
            0nat
        }) == count_seen(cells) + (if e == MapElements::PrevouslySeen {
            1nat
        } else {
            0nat
        }),
    decreases cells.len(),
{
    let after = cells.update(i, e);
    if i == cells.len() - 1 {
        assert(after.drop_last() =~= cells.drop_last());
    } else {
        assert(after.drop_last() =~= cells.drop_last().update(i, e));
        lemma_count_seen_update(cells.drop_last(), i, e);
    }
}

/// No more cells are seen than there are cells.
pub proof fn lemma_count_seen_bound(cells: Seq<MapElements>)
    ensures
        count_seen(cells) <= cells.len(),
    decreases cells.len(),
{
    if cells.len() > 0 {
        lemma_count_seen_bound(cells.drop_last());
    }
}

impl View for SituationMap {
    type V = Grid;

    open spec fn view(&self) -> Grid {
        Grid { width: self.map_width, height: self.map_height, cells: self.map@ }
    }
}

impl SituationMap {
    /// The state of the cell at `coord`, or `None` outside the grid.
    pub fn what_is_at(&self, coord: &Coord) -> (r: Option<&MapElements>)
        requires
            self@.wf(),
        ensures
            match self@.cell_at(*coord) {
                Some(e) => r == Some(&e),
                None => r is None,
            },
    {
        if coord.col >= self.map_width {
            None
        } else if coord.row >= self.map_height {
            None
        } else {
            proof {
                lemma_index_in_range(self@, *coord);
            }
            Some(&self.map[self.map_width * coord.row + coord.col])
        }
    }

    /// Writes `element` into the cell at `coord`.
    pub fn set_at(&mut self, coord: &Coord, element: MapElements)
        requires
            old(self)@.wf(),
            old(self)@.contains(*coord),
        ensures
            final(self)@ == old(self)@.with_cell(*coord, element),
            final(self).player == old(self).player,
    {
        proof {
            lemma_index_in_range(self@, *coord);
        }
        let at = self.map_width * coord.row + coord.col;
        self.map[at] = element;
    }

    /// How many cells the guard has stood on.
    pub fn seen_tiles(&self) -> (r: usize)
        ensures
            r == self@.count_visited(),
            r <= self.map@.len(),
    {
        let mut seen: usize = 0;
        let mut i: usize = 0;
        while i < self.map.len()
            invariant
                i <= self.map@.len(),
                seen == count_seen(self.map@.take(i as int)),
                seen <= i,
            decreases self.map@.len() - i,
        {
            assert(self.map@.take(i + 1).drop_last() =~= self.map@.take(i as int));
            if self.map[i] == MapElements::PrevouslySeen {
                seen = seen + 1;
            }
            i = i + 1;
        }
        assert(self.map@.take(i as int) =~= self.map@);
        seen
    }

    /// The cell in front of `player` and what it holds, or `None` where the
    /// guard faces the edge of the grid.
    pub fn what_is_in_front(&self, player: &Player) -> (r: Option<(Coord, &MapElements)>)
        requires
            self@.wf(),
        ensures
            match self@.ahead_of(player.coords, player.orientation) {
                Some(c) => r == Some((c, &self@.cells[self@.index_of(c)])),
                None => r is None,
            },
    {
        let coords_in_front = match player.orientation {
            Orientation::Up => {
                if player.coords.row == 0 {
                    return None;
                } else {
                    Coord { row: player.coords.row - 1, col: player.coords.col }
                }
            },
            Orientation::Right => {
                if player.coords.col >= self.map_width {
                    return None;
                } else {
                    Coord { row: player.coords.row, col: player.coords.col + 1 }
                }
            },
            Orientation::Down => {
                if player.coords.row >= self.map_height {
                    return None;
                } else {
                    Coord { row: player.coords.row + 1, col: player.coords.col }
                }
            },
            Orientation::Left => {
                if player.coords.col == 0 {
                    return None;
                } else {
                    Coord { row: player.coords.row, col: player.coords.col - 1 }
                }
            },
        };
        match self.what_is_at(&coords_in_front) {
            Some(element_in_front) => Some((coords_in_front, element_in_front)),
            None => None,
        }
    }

    /// Writes `element` into the cell at `at`.
    pub fn update_map(&mut self, at: &Coord, element: MapElements)
        requires
            old(self)@.wf(),
            old(self)@.contains(*at),
        ensures
            final(self)@ == old(self)@.with_cell(*at, element),
            final(self).player == old(self).player,
    {
        self.set_at(at, element);
    }
}

} // verus!
