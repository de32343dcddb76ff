//! The loop probe: a guard that leaves no marks, and the question whether
//! one more obstruction keeps it on the grid for ever.

use super::grid::{
    lemma_index_in_range, lemma_index_injective, tick_budget, Coord, Grid, MapElements, Orientation,
    Player, SituationMap,
};
use vstd::prelude::*;
use vstd::set_lib::{lemma_int_range, lemma_len_subset, set_int_range};

verus! {

/// One tick of a guard that leaves no marks: `None` where it faces the edge;
/// else the guard after a turn in front of an obstruction or after a move.
pub open spec fn drifted(g: Grid, p: Player) -> Option<Player> {
    match g.ahead_of(p.coords, p.orientation) {
        None => None,
        Some(c) => if g.cell_at(c) == Some(MapElements::Obstructed) {
            Some(Player { orientation: p.orientation.turned(), coords: p.coords })
        } else {
            Some(Player { orientation: p.orientation, coords: c })
        },
    }
}

/// The unmarking guard after `n` ticks from `p`, or `None` where it has left
/// the grid by then.
pub open spec fn drift_after(g: Grid, p: Player, n: nat) -> Option<Player>
    decreases n,
{
    if n == 0 {
        Some(p)
    } else {
        match drift_after(g, p, (n - 1) as nat) {
            None => None,
            Some(q) => drifted(g, q),
        }
    }
}

/// A guard that starts at `p` leaves the grid `g` at some time.
pub open spec fn escapes(g: Grid, p: Player) -> bool {
    exists|n: nat| drift_after(g, p, n) is None
}

/// What the loop probe answers for a guard at `p`: the cell ahead of `p`,
/// where there is one and the guard never leaves the grid once that cell
/// is obstructed; `None` otherwise.
pub open spec fn loop_verdict(g: Grid, p: Player) -> Option<Coord> {
    match g.ahead_of(p.coords, p.orientation) {
        None => None,
        Some(c) => if escapes(g.with_cell(c, MapElements::Obstructed), p) {
            None
        } else {
            Some(c)
        },
    }
}

/// What a call of the loop probe does: it leaves the grid `before` as the
/// grid `after`, unchanged, and answers with the verdict on `before`.
pub open spec fn probed(before: Grid, cursor: Player, after: Grid, answer: Option<Coord>) -> bool {
    after == before && answer == loop_verdict(before, cursor)
}

/// Running `a + b` ticks is running `a` ticks and then `b` more.
pub proof fn lemma_drift_split(g: Grid, p: Player, a: nat, b: nat)
    ensures
        drift_after(g, p, a + b) == match drift_after(g, p, a) {
            None => None,
            Some(q) => drift_after(g, q, b),
        },
    decreases b,
{
    if b > 0 {
        lemma_drift_split(g, p, a, (b - 1) as nat);
        assert((a + b - 1) as nat == a + (b - 1) as nat);
    }
}

/// A guard still on the grid after `n` ticks was on it at every earlier time.
pub proof fn lemma_drift_prefix(g: Grid, p: Player, m: nat, n: nat)
    requires
        m <= n,
        drift_after(g, p, n) is Some,
    ensures
        drift_after(g, p, m) is Some,
    decreases n,
{
    if m < n {
        lemma_drift_prefix(g, p, m, (n - 1) as nat);
    }
}

/// A guard that is in the same state at two different times is on the grid
/// at time `n`.
proof fn lemma_repeat_stays(g: Grid, p: Player, i: nat, j: nat, n: nat)
    requires
        i < j,
        drift_after(g, p, i) is Some,
        drift_after(g, p, i) == drift_after(g, p, j),
    ensures
        drift_after(g, p, n) is Some,
    decreases n,
{
    if n <= j {
        lemma_drift_prefix(g, p, n, j);
    } else {
        let rest = (n - j) as nat;
        lemma_drift_split(g, p, j, rest);
        lemma_drift_split(g, p, i, rest);
        lemma_repeat_stays(g, p, i, j, i + rest);
    }
}

/// A guard that is in the same state at two different times never leaves
/// the grid.
pub proof fn lemma_repeat_never_escapes(g: Grid, p: Player, i: nat, j: nat)
    requires
        i < j,
        drift_after(g, p, i) is Some,
        drift_after(g, p, i) == drift_after(g, p, j),
    ensures
        !escapes(g, p),
{
    assert forall|n: nat| drift_after(g, p, n) is Some by {
        lemma_repeat_stays(g, p, i, j, n);
    }
}

/// A guard that stands outside the grid with a cell of the grid ahead
/// leaves for good once that cell is obstructed: it turns, and then faces
/// along the edge.
proof fn lemma_outsider_escapes(g: Grid, p: Player, c: Coord)
    requires
        g.wf(),
        g.ahead_of(p.coords, p.orientation) == Some(c),
        !g.contains(p.coords),
    ensures
        escapes(g.with_cell(c, MapElements::Obstructed), p),
{
    let blocked = g.with_cell(c, MapElements::Obstructed);
    lemma_index_in_range(g, c);
    reveal_with_fuel(drift_after, 3);
    assert(blocked.ahead_of(p.coords, p.orientation) == Some(c));
    assert(blocked.cell_at(c) == Some(MapElements::Obstructed));
    assert(drift_after(blocked, p, 2) is None);
}

/// Where the obstructions are the same, the guard moves the same.
pub proof fn lemma_drift_same_obstructions(g: Grid, h: Grid, p: Player, n: nat)
    requires
        g.wf(),
        h.wf(),
        g.same_obstructions(h),
    ensures
        drift_after(g, p, n) == drift_after(h, p, n),
    decreases n,
{
    if n > 0 {
        lemma_drift_same_obstructions(g, h, p, (n - 1) as nat);
        match drift_after(g, p, (n - 1) as nat) {
            Some(q) => {
                match g.ahead_of(q.coords, q.orientation) {
                    Some(c) => {
                        lemma_index_in_range(g, c);
                    },
                    None => {},
                }
            },
            None => {},
        }
    }
}

/// A guard that starts on the grid stays on it for as long as it has not left.
pub proof fn lemma_drift_stays_inside(g: Grid, p: Player, n: nat)
    requires
        g.contains(p.coords),
    ensures
        drift_after(g, p, n) matches Some(q) ==> g.contains(q.coords),
    decreases n,
{
    if n > 0 {
        lemma_drift_stays_inside(g, p, (n - 1) as nat);
    }
}

/// The number that stands for the state of a guard on the grid.
pub open spec fn state_code(g: Grid, q: Player) -> int {
    4 * g.index_of(q.coords) + match q.orientation {
        Orientation::Up => 0int,
        Orientation::Right => 1int,
        Orientation::Down => 2int,
        Orientation::Left => 3int,
    }
}

/// The codes of the states that a guard is in during its first `k` ticks.
pub open spec fn codes_until(g: Grid, p: Player, k: nat) -> Set<int>
    decreases k,
{
    if k == 0 {
        Set::empty()
    } else {
        codes_until(g, p, (k - 1) as nat).insert(
            state_code(g, drift_after(g, p, (k - 1) as nat).unwrap()),
        )
    }
}

/// A guard that is in a different state at each of `k` times has been in
/// `k` states, each of them a state on the grid.
proof fn lemma_codes_counted(g: Grid, p: Player, k: nat)
    requires
        g.wf(),
        g.contains(p.coords),
        k > 0 ==> drift_after(g, p, (k - 1) as nat) is Some,
        forall|i: nat, j: nat| i < j < k ==> drift_after(g, p, i) != drift_after(g, p, j),
    ensures
        codes_until(g, p, k).finite(),
        codes_until(g, p, k).len() == k,
        codes_until(g, p, k).subset_of(set_int_range(0, tick_budget(g) as int)),
        forall|x: int| #[trigger]
            codes_until(g, p, k).contains(x) ==> exists|i: nat|
                i < k && drift_after(g, p, i) is Some && state_code(
                    g,
                    drift_after(g, p, i).unwrap(),
                ) == x,
    decreases k,
{
    if k > 0 {
        let last = (k - 1) as nat;
        if last > 0 {
            lemma_drift_prefix(g, p, (last - 1) as nat, last);
        }
        lemma_codes_counted(g, p, last);
        let q = drift_after(g, p, last).unwrap();
        let before = codes_until(g, p, last);
        lemma_drift_stays_inside(g, p, last);
        lemma_index_in_range(g, q.coords);
        if before.contains(state_code(g, q)) {
            let i = choose|i: nat|
                i < last && drift_after(g, p, i) is Some && state_code(
                    g,
                    drift_after(g, p, i).unwrap(),
                ) == state_code(g, q);
            let twin = drift_after(g, p, i).unwrap();
            lemma_drift_stays_inside(g, p, i);
            lemma_index_injective(g, twin.coords, q.coords);
            assert(drift_after(g, p, i) == drift_after(g, p, last));
        }
        assert forall|x: int| #[trigger] codes_until(g, p, k).contains(x) implies exists|i: nat|
            i < k && drift_after(g, p, i) is Some && state_code(g, drift_after(g, p, i).unwrap())
                == x by {
            if x == state_code(g, q) {
                assert(last < k && drift_after(g, p, last) is Some);
            } else {
                assert(before.contains(x));
                let i = choose|i: nat|
                    i < last && drift_after(g, p, i) is Some && state_code(
                        g,
                        drift_after(g, p, i).unwrap(),
                    ) == x;
                assert(i < k);
            }
        }
    }
}

/// A guard that is still on the grid after as many ticks as there are
/// states has been in one state twice.
pub proof fn lemma_some_state_repeats(g: Grid, p: Player)
    requires
        g.wf(),
        g.contains(p.coords),
        drift_after(g, p, tick_budget(g)) is Some,
    ensures
        exists|i: nat, j: nat|
            i < j <= tick_budget(g) && drift_after(g, p, i) is Some && drift_after(g, p, i)
                == drift_after(g, p, j),
{
    let k = tick_budget(g) + 1;
    if forall|i: nat, j: nat| i < j < k ==> drift_after(g, p, i) != drift_after(g, p, j) {
        lemma_codes_counted(g, p, k);
        lemma_int_range(0, tick_budget(g) as int);
        lemma_len_subset(codes_until(g, p, k), set_int_range(0, tick_budget(g) as int));
        assert(false);
    } else {
        let (i, j) = choose|i: nat, j: nat|
            i < j < k && drift_after(g, p, i) == drift_after(g, p, j);
        lemma_drift_prefix(g, p, j, tick_budget(g));
    }
}

/// The loop probe can be asked again: a second call for the same guard, on
/// the grid that the first call has left, gives the same answer, and both
/// calls leave the grid as it was before the first.
pub proof fn lemma_probe_repeatable(
    before: Grid,
    cursor: Player,
    between: Grid,
    first: Option<Coord>,
    after: Grid,
    second: Option<Coord>,
)
    requires
        probed(before, cursor, between, first),
        probed(between, cursor, after, second),
    ensures
        first == second,
        between == before,
        after == before,
{
}

/// The orientations that a probing guard has turned to on one cell.
#[derive(Clone, Copy)]
struct Turns {
    up: bool,
    right: bool,
    down: bool,
    left: bool,
}

impl Turns {
    /// A turn to `o` is recorded.
    spec fn has(self, o: Orientation) -> bool {
        match o {
            Orientation::Up => self.up,
            Orientation::Right => self.right,
            Orientation::Down => self.down,
            Orientation::Left => self.left,
        }
    }

    /// The record with a turn to `o` added.
    spec fn plus(self, o: Orientation) -> Turns {
        match o {
            Orientation::Up => Turns { up: true, ..self },
            Orientation::Right => Turns { right: true, ..self },
            Orientation::Down => Turns { down: true, ..self },
            Orientation::Left => Turns { left: true, ..self },
        }
    }

    /// How many turns are recorded.
    spec fn count(self) -> nat {
        (if self.up {
            1nat
        } else {
            0nat
        }) + (if self.right {
            1nat
        } else {
            0nat
        }) + (if self.down {
            1nat
        } else {
            0nat
        }) + (if self.left {
            1nat
        } else {
            0nat
        })
    }

    /// Tells whether a turn to `o` is recorded.
    fn is_set(self, o: Orientation) -> (b: bool)
        ensures
            b == self.has(o),
    {
        match o {
            Orientation::Up => self.up,
            Orientation::Right => self.right,
            Orientation::Down => self.down,
            Orientation::Left => self.left,
        }
    }

    /// Records a turn to `o`.
    fn set(self, o: Orientation) -> (r: Turns)
        ensures
            r == self.plus(o),
    {
        match o {
            Orientation::Up => Turns { up: true, ..self },
            Orientation::Right => Turns { right: true, ..self },
            Orientation::Down => Turns { down: true, ..self },
            Orientation::Left => Turns { left: true, ..self },
        }
    }
}

/// How many turns `s` records over all its cells.
spec fn marks(s: Seq<Turns>) -> nat
    decreases s.len(),
{
    if s.len() == 0 {
        0
    } else {
        marks(s.drop_last()) + s.last().count()
    }
}

/// Writing the record of one cell changes the number of turns by what
/// that cell gains or loses.
proof fn lemma_marks_update(s: Seq<Turns>, i: int, t: Turns)
    requires
        0 <= i < s.len(),
    ensures
        marks(s.update(i, t)) + s[i].count() == marks(s) + t.count(),
    decreases s.len(),
{
    let after = s.update(i, t);
    if i == s.len() - 1 {
        assert(after.drop_last() =~= s.drop_last());
    } else {
        assert(after.drop_last() =~= s.drop_last().update(i, t));
        lemma_marks_update(s.drop_last(), i, t);
    }
}

/// No cell records more than four turns.
proof fn lemma_marks_bound(s: Seq<Turns>)
    ensures
        marks(s) <= 4 * s.len(),
    decreases s.len(),
{
    if s.len() > 0 {
        lemma_marks_bound(s.drop_last());
    }
}

/// A record of `n` cells on which no turn has been made yet.
fn blank_turns(n: usize) -> (v: Vec<Turns>)
    ensures
        v@.len() == n,
        marks(v@) == 0,
        forall|i: int, o: Orientation| 0 <= i < n ==> !(#[trigger] v@[i].has(o)),
{
    let mut v: Vec<Turns> = Vec::new();
    while v.len() < n
        invariant
            v@.len() <= n,
            marks(v@) == 0,
            forall|i: int, o: Orientation| 0 <= i < v@.len() ==> !(#[trigger] v@[i].has(o)),
        decreases n - v@.len(),
    {
        let ghost prior = v@;
        v.push(Turns { up: false, right: false, down: false, left: false });
        assert(v@.drop_last() =~= prior);
    }
    v
}

/// At time `n` the probing guard stands on the cell with index `i`, facing `o`.
spec fn turned_at(g: Grid, start: Player, n: nat, i: int, o: Orientation) -> bool {
    match drift_after(g, start, n) {
        Some(q) => g.contains(q.coords) && g.index_of(q.coords) == i && q.orientation == o,
        None => false,
    }
}

/// How many moves straight ahead the grid leaves a guard at `p` at most.
spec fn room_ahead(g: Grid, p: Player) -> nat {
    match p.orientation {
        Orientation::Up => p.coords.row as nat,
        Orientation::Right => (g.width - p.coords.col) as nat,
        Orientation::Down => (g.height - p.coords.row) as nat,
        Orientation::Left => p.coords.col as nat,
    }
}

impl SituationMap {
    /// The loop probe: would an obstruction on the cell ahead of a guard at
    /// `starting_at`, facing `orientation`, keep that guard on the grid for
    /// ever?  The cell is obstructed for the length of the probe only: the
    /// map is handed back as it was.  Returns the cell where it would, and
    /// `None` where the guard leaves the grid or has no cell ahead.
    pub fn test_circular_path(&mut self, starting_at: Coord, orientation: Orientation) -> (r:
        Option<Coord>)
        requires
            old(self)@.wf(),
        ensures
            probed(old(self)@, Player { orientation, coords: starting_at }, final(self)@, r),
            final(self).player == old(self).player,
    {
        let mut virtual_player = Player { orientation, coords: starting_at };
        let (old_location, old_tile) = match self.what_is_in_front(&virtual_player) {
            Some((coord, element)) => (coord, *element),
            None => {
                return None;
            },
        };
        if starting_at.row >= self.map_height || starting_at.col >= self.map_width {
            // From outside the grid the guard turns once and is gone.
            proof {
                lemma_outsider_escapes(self@, virtual_player, old_location);
            }
            return None;
        }
        let ghost before = self@;
        proof {
            lemma_index_in_range(before, old_location);
        }
        self.set_at(&old_location, MapElements::Obstructed);
        let ghost g = self@;
        let ghost start = virtual_player;
        let ghost mut ticks: nat = 0;
        let ghost mut seen_at: Map<(int, Orientation), nat> = Map::empty();
        let mut visited_tiles = blank_turns(self.map.len());
        loop
            invariant
                self@ == g,
                g.wf(),
                g == before.with_cell(old_location, MapElements::Obstructed),
                before == old(self)@,
                start == (Player { orientation, coords: starting_at }),
                before.ahead_of(start.coords, start.orientation) == Some(old_location),
                before.wf(),
                before.contains(old_location),
                0 <= before.index_of(old_location) < before.cells.len(),
                old_tile == before.cells[before.index_of(old_location)],
                self.player == old(self).player,
                g.contains(virtual_player.coords),
                drift_after(g, start, ticks) == Some(virtual_player),
                visited_tiles@.len() == g.cells.len(),
                marks(visited_tiles@) <= 4 * visited_tiles@.len(),
                forall|i: int, o: Orientation|
                    0 <= i < visited_tiles@.len() && #[trigger] visited_tiles@[i].has(o) ==> {
                        &&& seen_at.contains_key((i, o))
                        &&& seen_at[(i, o)] <= ticks
                        &&& turned_at(g, start, seen_at[(i, o)], i, o)
                    },
            decreases 4 * visited_tiles@.len() - marks(visited_tiles@),
                room_ahead(g, virtual_player),
        {
            let front = match self.what_is_in_front(&virtual_player) {
                Some((coord, element)) => Some((coord, *element)),
                None => None,
            };
            match front {
                Some((coord, element)) => match element {
                    MapElements::Free | MapElements::PrevouslySeen => {
                        virtual_player.coords = coord;
                        proof {
                            ticks = ticks + 1;
                        }
                    },
                    MapElements::Obstructed => {
                        virtual_player.orientation = virtual_player.orientation.rotate_right();
                        proof {
                            lemma_index_in_range(g, virtual_player.coords);
                        }
                        let at = self.map_width * virtual_player.coords.row
                            + virtual_player.coords.col;
                        let turns = visited_tiles[at];
                        if turns.is_set(virtual_player.orientation) {
                            // The guard has turned this way on this cell before:
                            // from here on it repeats itself.
                            proof {
                                let earlier = seen_at[(at as int, virtual_player.orientation)];
                                let twin = drift_after(g, start, earlier).unwrap();
                                lemma_index_injective(g, twin.coords, virtual_player.coords);
                                lemma_repeat_never_escapes(g, start, earlier, ticks + 1);
                            }
                            self.set_at(&old_location, old_tile);
                            assert(self@.cells =~= before.cells);
                            return Some(old_location);
                        }
                        proof {
                            lemma_marks_update(
                                visited_tiles@,
                                at as int,
                                turns.plus(virtual_player.orientation),
                            );
                            lemma_marks_bound(
                                visited_tiles@.update(
                                    at as int,
                                    turns.plus(virtual_player.orientation),
                                ),
                            );
                            ticks = ticks + 1;
                            seen_at = seen_at.insert(
                                (at as int, virtual_player.orientation),
                                ticks,
                            );
                        }
                        let ghost prior = visited_tiles@;
                        visited_tiles[at] = turns.set(virtual_player.orientation);
                        assert forall|i: int, o: Orientation|
                            0 <= i < visited_tiles@.len() && #[trigger] visited_tiles@[i].has(
                                o,
                            ) implies {
                            &&& seen_at.contains_key((i, o))
                            &&& seen_at[(i, o)] <= ticks
                            &&& turned_at(g, start, seen_at[(i, o)], i, o)
                        } by {
                            if i != at || o != virtual_player.orientation {
                                assert(prior[i].has(o));
                            }
                        }
                    },
                },
                None => {
                    proof {
                        assert(drift_after(g, start, ticks + 1) is None);
                    }
                    self.set_at(&old_location, old_tile);
                    assert(self@.cells =~= before.cells);
                    return None;
                },
            }
        }
    }
}

} // verus!
