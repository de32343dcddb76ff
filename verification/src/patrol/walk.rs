//! The patrol itself: the single tick, the walk to the edge of the grid,
//! and the search for the obstructions that would close a loop.

use super::grid::{
    lemma_count_seen_bound, lemma_count_seen_update, lemma_index_in_range, tick_budget, Coord, Grid,
    MapElements, Player, SituationMap,
};
use super::probe::{
    drift_after, drifted, escapes, lemma_drift_same_obstructions, lemma_drift_split,
    lemma_repeat_never_escapes, lemma_some_state_repeats, loop_verdict,
};
use vstd::prelude::*;

verus! {

/// One tick of the patrol on grid `g` with the guard at `p`: `None` where the
/// guard faces the edge; else the grid and the guard after a turn in front of
/// an obstruction, or after a move onto the cell ahead, which is then marked.
pub open spec fn stepped(g: Grid, p: Player) -> Option<(Grid, Player)> {
    match g.ahead_of(p.coords, p.orientation) {
        None => None,
        Some(c) => if g.cell_at(c) == Some(MapElements::Obstructed) {
            Some((g, Player { orientation: p.orientation.turned(), coords: p.coords }))
        } else {
            Some(
                (
                    g.with_cell(c, MapElements::PrevouslySeen),
                    Player { orientation: p.orientation, coords: c },
                ),
            )
        },
    }
}

/// The grid and the guard after the patrol has run for `n` ticks, or until
/// the guard has left, whichever comes first.
pub open spec fn walk(g: Grid, p: Player, n: nat) -> (Grid, Player)
    decreases n,
{
    if n == 0 {
        (g, p)
    } else {
        match stepped(g, p) {
            None => (g, p),
            Some((after, moved)) => walk(after, moved, (n - 1) as nat),
        }
    }
}

/// The patrol has come to its end after `n` ticks: the guard faces the edge.
pub open spec fn halted(g: Grid, p: Player, n: nat) -> bool {
    stepped(walk(g, p, n).0, walk(g, p, n).1) is None
}

/// The cell ahead of the guard where that cell is free and the loop probe
/// finds that an obstruction on it would keep the guard on the grid.
pub open spec fn blocker_here(g: Grid, p: Player) -> Set<Coord> {
    match g.ahead_of(p.coords, p.orientation) {
        Some(c) => if g.cell_at(c) == Some(MapElements::Free) && loop_verdict(g, p) is Some {
            set![c]
        } else {
            Set::empty()
        },
        None => Set::empty(),
    }
}

/// The cells that the loop probe finds during the first `n` ticks of the
/// patrol, asked before each tick about the cell then ahead of the guard.
pub open spec fn blockers(g: Grid, p: Player, n: nat) -> Set<Coord>
    decreases n,
{
    if n == 0 {
        Set::empty()
    } else {
        match stepped(g, p) {
            None => Set::empty(),
            Some((after, moved)) => blocker_here(g, p).union(
                blockers(after, moved, (n - 1) as nat),
            ),
        }
    }
}

/// A tick changes no obstruction, and moves the guard as it moves one that
/// leaves no marks.
pub proof fn lemma_step_is_drift(g: Grid, p: Player)
    requires
        g.wf(),
    ensures
        match stepped(g, p) {
            Some((after, moved)) => drifted(g, p) == Some(moved) && after.wf()
                && after.same_obstructions(g),
            None => drifted(g, p) is None,
        },
{
    match g.ahead_of(p.coords, p.orientation) {
        Some(c) => {
            lemma_index_in_range(g, c);
        },
        None => {},
    }
}

/// The patrol moves the guard as an unmarking guard moves: while that one
/// is on the grid the two stand alike, and once it has left the patrol has
/// come to its end.
pub proof fn lemma_walk_is_drift(g: Grid, p: Player, n: nat)
    requires
        g.wf(),
    ensures
        walk(g, p, n).0.wf(),
        walk(g, p, n).0.same_obstructions(g),
        match drift_after(g, p, n) {
            Some(q) => walk(g, p, n).1 == q,
            None => halted(g, p, n),
        },
    decreases n,
{
    if n > 0 {
        lemma_step_is_drift(g, p);
        lemma_drift_split(g, p, 1, (n - 1) as nat);
        assert(drift_after(g, p, 1) == drifted(g, p)) by {
            reveal_with_fuel(drift_after, 2);
        }
        match stepped(g, p) {
            Some((after, moved)) => {
                lemma_walk_is_drift(after, moved, (n - 1) as nat);
                lemma_drift_same_obstructions(after, g, moved, (n - 1) as nat);
                let end = walk(after, moved, (n - 1) as nat).0;
                assert(end.same_obstructions(g));
            },
            None => {},
        }
    }
}

/// Once the patrol has come to its end, more ticks change nothing.
pub proof fn lemma_walk_settles(g: Grid, p: Player, n: nat, m: nat)
    requires
        halted(g, p, n),
        n <= m,
    ensures
        walk(g, p, m) == walk(g, p, n),
    decreases n,
{
    match stepped(g, p) {
        Some((after, moved)) => {
            if n > 0 {
                lemma_walk_settles(after, moved, (n - 1) as nat, (m - 1) as nat);
            }
        },
        None => {},
    }
}

/// A guard that leaves the grid at all has left it after at most as many
/// ticks as there are states, four for each cell; so the patrol that is cut
/// short after `tick_budget` ticks has then come to its end.
pub proof fn lemma_patrol_ends_in_time(g: Grid, p: Player)
    requires
        g.wf(),
        g.contains(p.coords),
        escapes(g, p),
    ensures
        drift_after(g, p, tick_budget(g)) is None,
        halted(g, p, tick_budget(g)),
        forall|m: nat|
            tick_budget(g) <= m ==> #[trigger] walk(g, p, m) == walk(g, p, tick_budget(g)),
{
    if drift_after(g, p, tick_budget(g)) is Some {
        lemma_some_state_repeats(g, p);
        let (i, j) = choose|i: nat, j: nat|
            i < j <= tick_budget(g) && drift_after(g, p, i) is Some && drift_after(g, p, i)
                == drift_after(g, p, j);
        lemma_repeat_never_escapes(g, p, i, j);
    }
    lemma_walk_is_drift(g, p, tick_budget(g));
    assert forall|m: nat| tick_budget(g) <= m implies #[trigger] walk(g, p, m) == walk(
        g,
        p,
        tick_budget(g),
    ) by {
        lemma_walk_settles(g, p, tick_budget(g), m);
    }
}

/// The patrol never loses a seen cell: after more ticks at least as many
/// cells are seen as after fewer, and never more than the grid has.
pub proof fn lemma_walk_count_grows(g: Grid, p: Player, m: nat, n: nat)
    requires
        g.wf(),
        m <= n,
    ensures
        walk(g, p, m).0.count_visited() <= walk(g, p, n).0.count_visited() <= g.width * g.height,
    decreases n,
{
    lemma_walk_is_drift(g, p, n);
    lemma_count_seen_bound(walk(g, p, n).0.cells);
    if m < n {
        lemma_step_is_drift(g, p);
        match stepped(g, p) {
            Some((after, moved)) => {
                if m == 0 {
                    let c = g.ahead_of(p.coords, p.orientation).unwrap();
                    lemma_index_in_range(g, c);
                    lemma_count_seen_update(g.cells, g.index_of(c), MapElements::PrevouslySeen);
                    lemma_walk_count_grows(after, moved, 0, (n - 1) as nat);
                } else {
                    lemma_walk_count_grows(after, moved, (m - 1) as nat, (n - 1) as nat);
                }
            },
            None => {},
        }
    }
}

impl SituationMap {
    /// One tick of the patrol: the guard leaves the grid (`None`), turns in
    /// front of an obstruction, or moves one cell ahead and marks it.
    /// Returns where the guard stands afterwards.
    pub fn step(&mut self) -> (r: Option<Coord>)
        requires
            old(self)@.wf(),
        ensures
            match stepped(old(self)@, old(self).player) {
                Some((g, p)) => r == Some(p.coords) && final(self)@ == g && final(self).player
                    == p,
                None => r is None && final(self)@ == old(self)@ && final(self).player == old(
                    self,
                ).player,
            },
            final(self)@.wf(),
            old(self)@.count_visited() <= final(self)@.count_visited() <= final(self)@.width
                * final(self)@.height,
    {
        proof {
            lemma_count_seen_bound(self.map@);
        }
        let player = self.player;
        let front = match self.what_is_in_front(&player) {
            Some((coord, element)) => Some((coord, *element)),
            None => None,
        };
        match front {
            Some((coord, element)) => match element {
                MapElements::Free | MapElements::PrevouslySeen => {
                    proof {
                        lemma_index_in_range(self@, coord);
                        lemma_count_seen_update(
                            self.map@,
                            self@.index_of(coord),
                            MapElements::PrevouslySeen,
                        );
                        lemma_count_seen_bound(
                            self.map@.update(self@.index_of(coord), MapElements::PrevouslySeen),
                        );
                    }
                    self.player.coords = coord;
                    self.update_map(&coord, MapElements::PrevouslySeen);
                    Some(coord)
                },
                MapElements::Obstructed => {
                    self.player.orientation = self.player.orientation.rotate_right();
                    Some(self.player.coords)
                },
            },
            None => None,
        }
    }
}

/// Whether `c` is among `list`.
fn listed(list: &Vec<Coord>, c: Coord) -> (b: bool)
    ensures
        b == list@.contains(c),
{
    let mut i: usize = 0;
    while i < list.len()
        invariant
            i <= list@.len(),
            forall|j: int| 0 <= j < i ==> list@[j] != c,
        decreases list@.len() - i,
    {
        if list[i] == c {
            return true;
        }
        i = i + 1;
    }
    false
}

/// Runs the patrol on `board` until the guard leaves the grid, or for
/// `tick_budget` ticks, and counts the cells the guard has stood on.
pub fn solve_part_1(board: SituationMap) -> (r: usize)
    requires
        board@.wf(),
    ensures
        r == walk(board@, board.player, tick_budget(board@)).0.count_visited(),
        r <= board@.width * board@.height,
        board@.contains(board.player.coords) && escapes(board@, board.player) ==> halted(
            board@,
            board.player,
            tick_budget(board@),
        ),
{
    proof {
        if board@.contains(board.player.coords) && escapes(board@, board.player) {
            lemma_patrol_ends_in_time(board@, board.player);
        }
    }
    let mut board = board;
    let ghost first = board@;
    let ghost guard = board.player;
    let mut budget: u128 = 4 * (board.map.len() as u128);
    let mut walking = true;
    while walking && budget > 0
        invariant
            board@.wf(),
            board@.width == first.width,
            board@.height == first.height,
            walk(first, guard, tick_budget(first)).0 == if walking {
                walk(board@, board.player, budget as nat).0
            } else {
                board@
            },
        decreases budget + if walking { 1int } else { 0int },
    {
        match board.step() {
            Some(_) => {
                budget = budget - 1;
            },
            None => {
                walking = false;
            },
        }
    }
    board.seen_tiles()
}

/// Runs the patrol on `board` as `solve_part_1` does and asks the loop probe
/// before every tick about the cell ahead of the guard, where that cell is
/// free.  Counts the different cells for which the probe finds a loop.
pub fn solve_part_2(board: SituationMap) -> (r: usize)
    requires
        board@.wf(),
    ensures
        r == blockers(board@, board.player, tick_budget(board@)).len(),
        blockers(board@, board.player, tick_budget(board@)).finite(),
{
    let mut board = board;
    let ghost first = board@;
    let ghost guard = board.player;
    let mut coords: Vec<Coord> = Vec::new();
    let mut budget: u128 = 4 * (board.map.len() as u128);
    let mut walking = true;
    while walking && budget > 0
        invariant
            board@.wf(),
            coords@.no_duplicates(),
            blockers(first, guard, tick_budget(first)) == if walking {
                coords@.to_set().union(blockers(board@, board.player, budget as nat))
            } else {
                coords@.to_set()
            },
        decreases budget + if walking { 1int } else { 0int },
    {
        let player = board.player;
        let ghost prior = coords@;
        let ghost here = board@;
        let free_ahead = match board.what_is_in_front(&player) {
            Some((_, element)) => *element == MapElements::Free,
            None => false,
        };
        if free_ahead {
            match board.test_circular_path(player.coords, player.orientation) {
                Some(c) => {
                    if !listed(&coords, c) {
                        coords.push(c);
                        proof {
                            prior.lemma_push_to_set_commute(c);
                        }
                    }
                },
                None => {},
            }
        }
        assert(board@ == here);
        assert(coords@.to_set() =~= prior.to_set().union(blocker_here(here, player)));
        match board.step() {
            Some(_) => {
                budget = budget - 1;
                assert(coords@.to_set().union(blockers(board@, board.player, budget as nat))
                    =~= prior.to_set().union(blockers(here, player, (budget + 1) as nat)));
            },
            None => {
                walking = false;
                assert(blocker_here(here, player) =~= Set::empty());
            },
        }
    }
    proof {
        assert(walking ==> blockers(board@, board.player, 0) =~= Set::<Coord>::empty());
        assert(blockers(first, guard, tick_budget(first)) =~= coords@.to_set());
        coords@.unique_seq_to_set();
    }
    coords.len()
}

} // verus!
