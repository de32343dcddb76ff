//! Reading a grid and its guard from text.

use super::grid::{Coord, Grid, MapElements, Orientation, Player, SituationMap};
use crate::text::{lines, split_lines, views};
use vstd::prelude::*;
use vstd::string::*;

verus! {

/// Why a text is not a grid with one guard on it.
#[derive(Clone, Copy, Debug, PartialEq, Eq, Structural)]
pub enum GridError {
    /// The text holds no line.
    NoLines,
    /// The line `row` is not as long as the first line.
    RaggedLine { row: usize },
    /// The byte at `at` is none of `.`, `#`, `^`, `>`, `v` and `<`.
    UnknownGlyph { at: Coord },
    /// The guard at `first` is not the only one: another stands at `second`.
    SecondPlayer { first: Coord, second: Coord },
    /// No guard stands on the grid.
    NoPlayer,
}

/// The two kinds of faults that a grid text can have.
#[derive(Clone, Copy, Debug, PartialEq, Eq, Structural)]
pub enum GridErrorKind {
    /// The text is no grid: it holds no line, lines of different lengths,
    /// or a byte that stands for no cell.
    MalformedGrid,
    /// The grid holds no guard, or more than one.
    MissingOrGoneCursor,
}

impl GridError {
    /// The kind of the fault.
    pub open spec fn kind_of(self) -> GridErrorKind {
        match self {
            GridError::NoLines => GridErrorKind::MalformedGrid,
            GridError::RaggedLine { .. } => GridErrorKind::MalformedGrid,
            GridError::UnknownGlyph { .. } => GridErrorKind::MalformedGrid,
            GridError::SecondPlayer { .. } => GridErrorKind::MissingOrGoneCursor,
            GridError::NoPlayer => GridErrorKind::MissingOrGoneCursor,
        }
    }

    /// Tells the kind of the fault.
    pub fn kind(&self) -> (r: GridErrorKind)
        ensures
            r == self.kind_of(),
    {
        match self {
            GridError::NoLines => GridErrorKind::MalformedGrid,
            GridError::RaggedLine { .. } => GridErrorKind::MalformedGrid,
            GridError::UnknownGlyph { .. } => GridErrorKind::MalformedGrid,
            GridError::SecondPlayer { .. } => GridErrorKind::MissingOrGoneCursor,
            GridError::NoPlayer => GridErrorKind::MissingOrGoneCursor,
        }
    }
}

/// What has been read of a grid so far: its cells in row-major order, and
/// the guard if it has been met.
pub struct Scan {
    pub cells: Seq<MapElements>,
    pub player: Option<Player>,
}

/// The way the guard faces that the byte `b` stands for, if it stands for
/// the guard: `^` up, `>` right, `v` down, `<` left.
pub open spec fn glyph_guard(b: u8) -> Option<Orientation> {
    if b == 94 {
        Some(Orientation::Up)
    } else if b == 62 {
        Some(Orientation::Right)
    } else if b == 118 {
        Some(Orientation::Down)
    } else if b == 60 {
        Some(Orientation::Left)
    } else {
        None
    }
}

/// The cell that the byte `b` stands for, if it stands for one.
pub open spec fn glyph_cell(b: u8) -> Option<MapElements> {
    if b == 46 {
        Some(MapElements::Free)
    } else if b == 35 {
        Some(MapElements::Obstructed)
    } else if glyph_guard(b) is Some {
        Some(MapElements::PrevouslySeen)
    } else {
        None
    }
}

/// The scan `before` carried on over the first `n` bytes of `line`, which
/// is row `row` of the grid: the first byte that is no glyph, or that is a
/// second guard, ends it with an error.
pub open spec fn scan_line(line: Seq<u8>, row: usize, n: nat, before: Scan) -> Result<
    Scan,
    GridError,
>
    decreases n,
{
    if n == 0 {
        Ok(before)
    } else {
        match scan_line(line, row, (n - 1) as nat, before) {
            Err(e) => Err(e),
            Ok(s) => {
                let at = Coord { row, col: (n - 1) as usize };
                match (glyph_cell(line[n - 1]), glyph_guard(line[n - 1]), s.player) {
                    (None, _, _) => Err(GridError::UnknownGlyph { at }),
                    (Some(e), None, _) => Ok(Scan { cells: s.cells.push(e), player: s.player }),
                    (Some(e), Some(o), None) => Ok(
                        Scan {
                            cells: s.cells.push(e),
                            player: Some(Player { orientation: o, coords: at }),
                        },
                    ),
                    (Some(e), Some(o), Some(p)) => Err(
                        GridError::SecondPlayer { first: p.coords, second: at },
                    ),
                }
            },
        }
    }
}

/// The scan of the first `n` of `rows`, from the top: a row that is not as
/// long as the first ends it with an error, before any of its bytes is read.
pub open spec fn scan_lines(rows: Seq<Seq<u8>>, n: nat) -> Result<Scan, GridError>
    decreases n,
{
    if n == 0 {
        Ok(Scan { cells: Seq::empty(), player: None })
    } else {
        match scan_lines(rows, (n - 1) as nat) {
            Err(e) => Err(e),
            Ok(s) => if rows[n - 1].len() != rows[0].len() {
                Err(GridError::RaggedLine { row: (n - 1) as usize })
            } else {
                scan_line(rows[n - 1], (n - 1) as usize, rows[n - 1].len(), s)
            },
        }
    }
}

/// The grid and the guard that `rows` spell out, or the first reason why
/// they spell out none.
pub open spec fn parsed(rows: Seq<Seq<u8>>) -> Result<(Grid, Player), GridError> {
    if rows.len() == 0 {
        Err(GridError::NoLines)
    } else {
        match scan_lines(rows, rows.len()) {
            Err(e) => Err(e),
            Ok(s) => match s.player {
                None => Err(GridError::NoPlayer),
                Some(p) => Ok(
                    (
                        Grid {
                            width: rows[0].len() as usize,
                            height: rows.len() as usize,
                            cells: s.cells,
                        },
                        p,
                    ),
                ),
            },
        }
    }
}

/// Once the scan of a line has failed, reading on changes nothing.
pub proof fn lemma_scan_line_fails(line: Seq<u8>, row: usize, n: nat, m: nat, before: Scan)
    requires
        n <= m,
        scan_line(line, row, n, before) is Err,
    ensures
        scan_line(line, row, m, before) == scan_line(line, row, n, before),
    decreases m,
{
    if n < m {
        lemma_scan_line_fails(line, row, n, (m - 1) as nat, before);
    }
}

/// Once the scan of the rows has failed, reading on changes nothing.
pub proof fn lemma_scan_lines_fails(rows: Seq<Seq<u8>>, n: nat, m: nat)
    requires
        n <= m,
        scan_lines(rows, n) is Err,
    ensures
        scan_lines(rows, m) == scan_lines(rows, n),
    decreases m,
{
    if n < m {
        lemma_scan_lines_fails(rows, n, (m - 1) as nat);
    }
}

/// The rows spell the grid `g` with the guard `p` on it: they are as many
/// as the grid is high and each as long as the grid is wide, every byte
/// stands for the cell at its place, and the one byte that stands for a
/// guard stands where `p` stands and faces as `p` faces.
pub open spec fn spells(rows: Seq<Seq<u8>>, g: Grid, p: Player) -> bool {
    &&& 0 < rows.len() == g.height
    &&& rows[0].len() == g.width
    &&& g.cells.len() == g.width * g.height
    &&& forall|r: int| 0 <= r < rows.len() ==> (#[trigger] rows[r]).len() == g.width
    &&& forall|r: int, c: int|
        0 <= r < g.height && 0 <= c < g.width ==> glyph_cell(#[trigger] rows[r][c]) == Some(
            g.cells[g.width * r + c],
        )
    &&& g.contains(p.coords)
    &&& glyph_guard(rows[p.coords.row as int][p.coords.col as int]) == Some(p.orientation)
    &&& forall|r: int, c: int|
        0 <= r < g.height && 0 <= c < g.width && glyph_guard(#[trigger] rows[r][c]) is Some ==> r
            == p.coords.row && c == p.coords.col
}

/// What a line that is read without fault adds to the scan: one cell for
/// each of its bytes, and the guard where a byte stands for it.
proof fn lemma_scan_line_reads(line: Seq<u8>, row: usize, n: nat, before: Scan)
    requires
        n <= line.len() <= usize::MAX,
        scan_line(line, row, n, before) is Ok,
    ensures
        ({
            let after = scan_line(line, row, n, before)->Ok_0;
            let base = before.cells.len() as int;
            &&& after.cells.len() == base + n
            &&& forall|i: int| 0 <= i < base ==> after.cells[i] == before.cells[i]
            &&& forall|c: int|
                0 <= c < n ==> glyph_cell(#[trigger] line[c]) == Some(after.cells[base + c])
            &&& match before.player {
                Some(p) => after.player == Some(p) && forall|c: int|
                    0 <= c < n ==> glyph_guard(#[trigger] line[c]) is None,
                None => match after.player {
                    None => forall|c: int| 0 <= c < n ==> glyph_guard(#[trigger] line[c]) is None,
                    Some(q) => {
                        &&& q.coords.row == row
                        &&& q.coords.col < n
                        &&& glyph_guard(line[q.coords.col as int]) == Some(q.orientation)
                        &&& forall|c: int|
                            0 <= c < n && glyph_guard(#[trigger] line[c]) is Some ==> c
                                == q.coords.col
                    },
                },
            }
        }),
    decreases n,
{
    if n > 0 {
        lemma_scan_line_reads(line, row, (n - 1) as nat, before);
    }
}

/// What rows that are read without fault give: a cell for every byte, row
/// after row, and the guard where the one byte stands that stands for it.
proof fn lemma_scan_lines_reads(rows: Seq<Seq<u8>>, n: nat)
    requires
        n <= rows.len() <= usize::MAX,
        n > 0 ==> rows[0].len() <= usize::MAX,
        scan_lines(rows, n) is Ok,
    ensures
        ({
            let after = scan_lines(rows, n)->Ok_0;
            let w = rows[0].len() as int;
            &&& after.cells.len() == w * n
            &&& forall|r: int| 0 <= r < n ==> (#[trigger] rows[r]).len() == w
            &&& forall|r: int, c: int|
                0 <= r < n && 0 <= c < w ==> glyph_cell(#[trigger] rows[r][c]) == Some(
                    after.cells[w * r + c],
                )
            &&& match after.player {
                None => forall|r: int, c: int|
                    0 <= r < n && 0 <= c < w ==> glyph_guard(#[trigger] rows[r][c]) is None,
                Some(q) => {
                    &&& q.coords.row < n
                    &&& q.coords.col < w
                    &&& glyph_guard(rows[q.coords.row as int][q.coords.col as int]) == Some(
                        q.orientation,
                    )
                    &&& forall|r: int, c: int|
                        0 <= r < n && 0 <= c < w && glyph_guard(#[trigger] rows[r][c]) is Some
                            ==> r == q.coords.row && c == q.coords.col
                },
            }
        }),
    decreases n,
{
    let w = rows[0].len() as int;
    if n > 0 {
        let last = (n - 1) as nat;
        lemma_scan_lines_reads(rows, last);
        let before = scan_lines(rows, last)->Ok_0;
        let after = scan_lines(rows, n)->Ok_0;
        let line = rows[n - 1];
        lemma_scan_line_reads(line, last as usize, line.len(), before);
        assert(w * last + w == w * n) by (nonlinear_arith)
            requires
                last + 1 == n,
        ;
        assert forall|r: int, c: int| 0 <= r < n && 0 <= c < w implies glyph_cell(
            #[trigger] rows[r][c],
        ) == Some(after.cells[w * r + c]) by {
            if r < last {
                assert(w * r + w <= w * last) by (nonlinear_arith)
                    requires
                        0 <= r < last,
                        0 <= w,
                ;
                assert(0 <= w * r) by (nonlinear_arith)
                    requires
                        0 <= r,
                        0 <= w,
                ;
                assert(after.cells[w * r + c] == before.cells[w * r + c]);
            }
        }
    } else {
        assert(w * 0 == 0) by (nonlinear_arith);
    }
}

/// Rows that are read without fault spell the grid and the guard that the
/// reading gives.
pub proof fn lemma_parsed_spells(rows: Seq<Seq<u8>>)
    requires
        parsed(rows) is Ok,
        rows.len() <= usize::MAX,
        rows[0].len() <= usize::MAX,
    ensures
        spells(rows, parsed(rows)->Ok_0.0, parsed(rows)->Ok_0.1),
{
    lemma_scan_lines_reads(rows, rows.len());
}

/// Decodes one byte of a grid text.
pub fn read_glyph(b: u8) -> (r: Option<(MapElements, Option<Orientation>)>)
    ensures
        match glyph_cell(b) {
            Some(e) => r == Some((e, glyph_guard(b))),
            None => r is None,
        },
{
    if b == 46 {
        Some((MapElements::Free, None))
    } else if b == 35 {
        Some((MapElements::Obstructed, None))
    } else if b == 94 {
        Some((MapElements::PrevouslySeen, Some(Orientation::Up)))
    } else if b == 62 {
        Some((MapElements::PrevouslySeen, Some(Orientation::Right)))
    } else if b == 118 {
        Some((MapElements::PrevouslySeen, Some(Orientation::Down)))
    } else if b == 60 {
        Some((MapElements::PrevouslySeen, Some(Orientation::Left)))
    } else {
        None
    }
}

impl SituationMap {
    /// Reads a grid from `value`: one line for each row, `.` for a free
    /// cell, `#` for an obstruction and one of `^`, `>`, `v`, `<` for the
    /// guard, whose cell counts as seen.  Fails on the first byte or line,
    /// from the top, that keeps the text from being a grid with exactly one
    /// guard.
    pub fn try_from(value: &str) -> (r: Result<SituationMap, GridError>)
        ensures
            match parsed(lines(value.spec_bytes())) {
                Ok((g, p)) => r matches Ok(board) && board@ == g && board.player == p,
                Err(e) => r matches Err(err) && err == e,
            },
            r matches Ok(board) ==> board@.wf() && spells(
                lines(value.spec_bytes()),
                board@,
                board.player,
            ),
    {
        let rows = split_lines(value.as_bytes());
        proof {
            let read = views(rows@);
            assert(rows@.len() == rows.len());
            if read.len() > 0 {
                assert(read[0] == rows@[0]@);
                assert(rows@[0]@.len() == rows@[0].len());
                if parsed(read) is Ok {
                    lemma_parsed_spells(read);
                }
            }
        }
        if rows.len() == 0 {
            return Err(GridError::NoLines);
        }
        let map_width = rows[0].len();
        let mut player: Option<Player> = None;
        let mut map: Vec<MapElements> = Vec::new();
        let mut row: usize = 0;
        while row < rows.len()
            invariant
                views(rows@) == lines(value.spec_bytes()),
                0 < rows@.len(),
                row <= rows@.len(),
                map_width == rows@[0]@.len(),
                scan_lines(views(rows@), row as nat) == Ok::<Scan, GridError>(
                    Scan { cells: map@, player },
                ),
                map@.len() == map_width * row,
                player matches Some(p) ==> p.coords.row < row && p.coords.col < map_width,
            decreases rows@.len() - row,
        {
            let line = &rows[row];
            assert(views(rows@)[row as int] == line@);
            assert(views(rows@)[0] == rows@[0]@);
            if line.len() != map_width {
                proof {
                    lemma_scan_lines_fails(views(rows@), (row + 1) as nat, rows@.len());
                }
                return Err(GridError::RaggedLine { row });
            }
            let ghost before = Scan { cells: map@, player };
            let mut col: usize = 0;
            while col < line.len()
                invariant
                    views(rows@) == lines(value.spec_bytes()),
                    row < rows@.len(),
                    views(rows@)[row as int] == line@,
                    views(rows@)[0].len() == map_width,
                    scan_lines(views(rows@), row as nat) == Ok::<Scan, GridError>(before),
                    col <= line@.len(),
                    line@.len() == map_width,
                    scan_line(line@, row, col as nat, before) == Ok::<Scan, GridError>(
                        Scan { cells: map@, player },
                    ),
                    map@.len() == before.cells.len() + col,
                    player matches Some(p) ==> p.coords.row <= row && p.coords.col < map_width,
                decreases line@.len() - col,
            {
                let at = Coord { row, col };
                let glyph = line[col];
                let (element, facing) = match read_glyph(glyph) {
                    Some(read) => read,
                    None => {
                        proof {
                            lemma_scan_line_fails(
                                line@,
                                row,
                                (col + 1) as nat,
                                line@.len(),
                                before,
                            );
                            lemma_scan_lines_fails(views(rows@), (row + 1) as nat, rows@.len());
                        }
                        return Err(GridError::UnknownGlyph { at });
                    },
                };
                match facing {
                    Some(orientation) => {
                        match player {
                            Some(p) => {
                                proof {
                                    lemma_scan_line_fails(
                                        line@,
                                        row,
                                        (col + 1) as nat,
                                        line@.len(),
                                        before,
                                    );
                                    lemma_scan_lines_fails(
                                        views(rows@),
                                        (row + 1) as nat,
                                        rows@.len(),
                                    );
                                }
                                return Err(
                                    GridError::SecondPlayer { first: p.coords, second: at },
                                );
                            },
                            None => {
                                player = Some(Player { orientation, coords: at });
                            },
                        }
                    },
                    None => {},
                }
                map.push(element);
                col = col + 1;
            }
            assert(map_width * row + map_width == map_width * (row + 1)) by (nonlinear_arith);
            row = row + 1;
        }
        match player {
            Some(player) => {
                let map_height = rows.len();
                assert(map@.len() == map.len());
                Ok(SituationMap { player, map, map_width, map_height })
            },
            None => Err(GridError::NoPlayer),
        }
    }
}

} // verus!
