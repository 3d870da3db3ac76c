//! Conway's Game of Life on an unbounded grid of cells.

use vstd::prelude::*;

verus! {

/// A cell: its column and its row.
pub type Cell = (i32, i32);

/// The place of a cell on the grid.
pub open spec fn place(cell: Cell) -> (int, int) {
    (cell.0 as int, cell.1 as int)
}

/// The places of the cells of a list: the live cells of a generation. A
/// cell that the list names twice is alive once.
pub open spec fn live(cells: Seq<Cell>) -> Set<(int, int)> {
    Set::new(|p: (int, int)| exists|i: int| 0 <= i < cells.len() && place(#[trigger] cells[i]) == p)
}

/// 1 if the place is alive, 0 if it is not.
pub open spec fn count_at(alive: Set<(int, int)>, x: int, y: int) -> nat {
    if alive.contains((x, y)) {
        1
    } else {
        0
    }
}

/// How many of the eight places around `p` are alive.
pub open spec fn live_neighbors(alive: Set<(int, int)>, p: (int, int)) -> nat {
    count_at(alive, p.0 - 1, p.1 - 1) + count_at(alive, p.0 - 1, p.1) + count_at(
        alive,
        p.0 - 1,
        p.1 + 1,
    ) + count_at(alive, p.0, p.1 - 1) + count_at(alive, p.0, p.1 + 1) + count_at(
        alive,
        p.0 + 1,
        p.1 - 1,
    ) + count_at(alive, p.0 + 1, p.1) + count_at(alive, p.0 + 1, p.1 + 1)
}

/// Whether the place is alive in the next generation: a live cell with two
/// or three live neighbours stays alive, and a dead cell with exactly three
/// comes alive.
pub open spec fn alive_next(alive: Set<(int, int)>, p: (int, int)) -> bool {
    let n = live_neighbors(alive, p);
    (alive.contains(p) && (n == 2 || n == 3)) || (!alive.contains(p) && n == 3)
}

/// The next generation.
pub open spec fn step_model(alive: Set<(int, int)>) -> Set<(int, int)> {
    Set::new(|p: (int, int)| alive_next(alive, p))
}

/// The generation that comes `generations` steps after `alive`.
pub open spec fn life_model(alive: Set<(int, int)>, generations: nat) -> Set<(int, int)>
    decreases generations,
{
    if generations == 0 {
        alive
    } else {
        life_model(step_model(alive), (generations - 1) as nat)
    }
}

/// Whether every cell keeps a distance of `margin` from the ends of the
/// coordinate range.
pub open spec fn within(cells: Seq<Cell>, margin: int) -> bool {
    forall|i: int|
        0 <= i < cells.len() ==> {
            &&& i32::MIN + margin <= (#[trigger] cells[i]).0 <= i32::MAX - margin
            &&& i32::MIN + margin <= cells[i].1 <= i32::MAX - margin
        }
}

/// Whether every cell keeps a distance of `margin` from the ends of the
/// coordinate range, as `step` asks with a margin of 2, and `life` with
/// one more than the number of generations.
pub fn keeps_margin(cells: &Vec<Cell>, margin: usize) -> (r: bool)
    ensures
        r == within(cells@, margin as int),
{
    if margin > 0x7fff_ffff {
        if cells.len() > 0 {
            assert(!(i32::MIN + margin <= cells@[0].0 <= i32::MAX - margin));
            return false;
        }
        return true;
    }
    let low: i64 = -2147483648 + margin as i64;
    let high: i64 = 2147483647 - margin as i64;
    let mut i: usize = 0;
    while i < cells.len()
        invariant
            i <= cells.len(),
            low == i32::MIN + margin,
            high == i32::MAX - margin,
            forall|j: int|
                0 <= j < i ==> {
                    &&& low <= (#[trigger] cells@[j]).0 <= high
                    &&& low <= cells@[j].1 <= high
                },
        decreases cells.len() - i,
    {
        let x = cells[i].0 as i64;
        let y = cells[i].1 as i64;
        if x < low || x > high || y < low || y > high {
            return false;
        }
        i += 1;
    }
    true
}

/// The eight places around a place, column by column.
pub open spec fn around(p: (int, int)) -> Seq<(int, int)> {
    seq![
        (p.0 - 1, p.1 - 1),
        (p.0 - 1, p.1),
        (p.0 - 1, p.1 + 1),
        (p.0, p.1 - 1),
        (p.0, p.1 + 1),
        (p.0 + 1, p.1 - 1),
        (p.0 + 1, p.1),
        (p.0 + 1, p.1 + 1),
    ]
}

/// The eight cells around a cell.
pub fn neighbors(cell: Cell) -> (result: Vec<Cell>)
    requires
        i32::MIN < cell.0 < i32::MAX,
        i32::MIN < cell.1 < i32::MAX,
    ensures
        result@.map_values(|c: Cell| place(c)) == around(place(cell)),
{
    let (x, y) = cell;
    let mut result: Vec<Cell> = Vec::new();
    result.push((x - 1, y - 1));
    result.push((x - 1, y));
    result.push((x - 1, y + 1));
    result.push((x, y - 1));
    result.push((x, y + 1));
    result.push((x + 1, y - 1));
    result.push((x + 1, y));
    result.push((x + 1, y + 1));
    assert(result@.map_values(|c: Cell| place(c)) =~= around(place(cell)));
    result
}

/// Whether the cell is among the cells.
pub fn is_alive(cells: &Vec<Cell>, cell: Cell) -> (r: bool)
    ensures
        r == live(cells@).contains(place(cell)),
{
    let mut i: usize = 0;
    while i < cells.len()
        invariant
            i <= cells.len(),
            forall|j: int| 0 <= j < i ==> place(#[trigger] cells@[j]) != place(cell),
        decreases cells.len() - i,
    {
        if cells[i].0 == cell.0 && cells[i].1 == cell.1 {
            return true;
        }
        i += 1;
    }
    false
}

/// How many of the eight cells around `cell` are among the cells.
pub fn neighbor_count(cell: Cell, cells: &Vec<Cell>) -> (count: usize)
    requires
        i32::MIN < cell.0 < i32::MAX,
        i32::MIN < cell.1 < i32::MAX,
    ensures
        count == live_neighbors(live(cells@), place(cell)),
{
    let ring = neighbors(cell);
    let ghost places = ring@.map_values(|c: Cell| place(c));
    let ghost alive = live(cells@);
    let mut count: usize = 0;
    let mut i: usize = 0;
    assert(places.len() == 8);
    while i < 8
        invariant
            i <= 8,
            count <= i,
            ring.len() == 8,
            places == ring@.map_values(|c: Cell| place(c)),
            places == around(place(cell)),
            alive == live(cells@),
            count == partial_count(alive, places, i as nat),
        decreases 8 - i,
    {
        assert(places[i as int] == place(ring@[i as int]));
        if is_alive(cells, ring[i]) {
            count += 1;
        }
        i += 1;
    }
    proof {
        reveal_with_fuel(partial_count, 9);
    }
    count
}

/// How many of the first `n` places are alive.
pub open spec fn partial_count(alive: Set<(int, int)>, places: Seq<(int, int)>, n: nat) -> nat
    decreases n,
{
    if n == 0 || n > places.len() {
        0
    } else {
        partial_count(alive, places, (n - 1) as nat) + count_at(
            alive,
            places[n - 1].0,
            places[n - 1].1,
        )
    }
}

/// Whether `cell` is at most one column and one row away from a cell of
/// `cells`.
pub open spec fn beside(cell: Cell, cells: Seq<Cell>) -> bool {
    exists|i: int|
        0 <= i < cells.len() && (#[trigger] cells[i]).0 - 1 <= cell.0 <= cells[i].0 + 1
            && cells[i].1 - 1 <= cell.1 <= cells[i].1 + 1
}

/// Whether every cell of `next` is at most one column and one row away
/// from a cell of `cells`.
pub open spec fn near(next: Seq<Cell>, cells: Seq<Cell>) -> bool {
    forall|j: int| 0 <= j < next.len() ==> beside(#[trigger] next[j], cells)
}

/// Cells next to cells that keep a margin keep the margin less one.
pub proof fn lemma_near_within(next: Seq<Cell>, cells: Seq<Cell>, margin: int)
    requires
        near(next, cells),
        within(cells, margin),
    ensures
        within(next, margin - 1),
{
    assert forall|j: int| 0 <= j < next.len() implies {
        &&& i32::MIN + (margin - 1) <= (#[trigger] next[j]).0 <= i32::MAX - (margin - 1)
        &&& i32::MIN + (margin - 1) <= next[j].1 <= i32::MAX - (margin - 1)
    } by {
        assert(beside(next[j], cells));
    }
}

/// The live places after one more cell was listed.
pub proof fn lemma_live_push(cells: Seq<Cell>, cell: Cell)
    ensures
        live(cells.push(cell)) == live(cells).insert(place(cell)),
{
    let more = cells.push(cell);
    assert forall|p: (int, int)| live(more).contains(p) == live(cells).insert(
        place(cell),
    ).contains(p) by {
        if live(more).contains(p) {
            let i = choose|i: int| 0 <= i < more.len() && place(#[trigger] more[i]) == p;
            if i < cells.len() {
                assert(place(cells[i]) == p);
            }
        }
        if live(cells).contains(p) {
            let i = choose|i: int| 0 <= i < cells.len() && place(#[trigger] cells[i]) == p;
            assert(place(more[i]) == p);
        }
        if p == place(cell) {
            assert(place(more[cells.len() as int]) == p);
        }
    }
    assert(live(more) =~= live(cells).insert(place(cell)));
}

/// Lists the cell unless it is listed already.
fn insert(cells: &mut Vec<Cell>, cell: Cell)
    ensures
        live(final(cells)@) == live(old(cells)@).insert(place(cell)),
        final(cells)@ == old(cells)@ || final(cells)@ == old(cells)@.push(cell),
        old(cells)@.no_duplicates() ==> final(cells)@.no_duplicates(),
{
    if !is_alive(cells, cell) {
        proof {
            lemma_live_push(cells@, cell);
            if cells@.no_duplicates() {
                assert forall|i: int, j: int|
                    0 <= i < cells@.len() + 1 && 0 <= j < cells@.len() + 1 && i != j implies cells@.push(
                    cell,
                )[i] != cells@.push(cell)[j] by {
                    if i < cells@.len() {
                        assert(place(cells@[i]) != place(cell));
                    }
                    if j < cells@.len() {
                        assert(place(cells@[j]) != place(cell));
                    }
                }
            }
        }
        cells.push(cell);
    } else {
        assert(live(cells@).insert(place(cell)) =~= live(cells@));
    }
}

/// Whether the place is alive in the next generation and is the place of
/// one of the first `n` candidates.
pub open spec fn kept(alive: Set<(int, int)>, candidates: Seq<Cell>, n: int, p: (int, int)) -> bool {
    alive_next(alive, p) && exists|t: int| 0 <= t < n && place(#[trigger] candidates[t]) == p
}

/// A place that is alive, or has a live neighbour, is among the places
/// `reached`, if those hold every live place and the eight places around
/// each.
proof fn lemma_reached(alive: Set<(int, int)>, reached: Set<(int, int)>, p: (int, int))
    requires
        forall|q: (int, int)|
            alive.contains(q) ==> reached.contains(q) && forall|k: int|
                0 <= k < 8 ==> reached.contains(#[trigger] around(q)[k]),
        alive.contains(p) || live_neighbors(alive, p) > 0,
    ensures
        reached.contains(p),
{
    if alive.contains(p) {
    } else if alive.contains((p.0 - 1, p.1 - 1)) {
        assert(around((p.0 - 1, p.1 - 1))[7] == p);
    } else if alive.contains((p.0 - 1, p.1)) {
        assert(around((p.0 - 1, p.1))[6] == p);
    } else if alive.contains((p.0 - 1, p.1 + 1)) {
        assert(around((p.0 - 1, p.1 + 1))[5] == p);
    } else if alive.contains((p.0, p.1 - 1)) {
        assert(around((p.0, p.1 - 1))[4] == p);
    } else if alive.contains((p.0, p.1 + 1)) {
        assert(around((p.0, p.1 + 1))[3] == p);
    } else if alive.contains((p.0 + 1, p.1 - 1)) {
        assert(around((p.0 + 1, p.1 - 1))[2] == p);
    } else if alive.contains((p.0 + 1, p.1)) {
        assert(around((p.0 + 1, p.1))[1] == p);
    } else if alive.contains((p.0 + 1, p.1 + 1)) {
        assert(around((p.0 + 1, p.1 + 1))[0] == p);
    }
}

/// The next generation: each cell once, whatever the order.
///
/// The cells have to keep a distance of 2 from the ends of the coordinate
/// range, so that the neighbours of their neighbours have coordinates.
pub fn step(cells: &Vec<Cell>) -> (next: Vec<Cell>)
    requires
        within(cells@, 2),
    ensures
        live(next@) == step_model(live(cells@)),
        next@.no_duplicates(),
        near(next@, cells@),
{
    let ghost alive = live(cells@);
    let mut candidates: Vec<Cell> = Vec::new();
    let mut i: usize = 0;
    while i < cells.len()
        invariant
            i <= cells.len(),
            within(cells@, 2),
            alive == live(cells@),
            candidates@.no_duplicates(),
            near(candidates@, cells@),
            forall|j: int|
                0 <= j < i ==> live(candidates@).contains(place(#[trigger] cells@[j])) && forall|
                    k: int,
                |
                    0 <= k < 8 ==> live(candidates@).contains(#[trigger] around(place(cells@[j]))[k]),
        decreases cells.len() - i,
    {
        let cell = cells[i];
        let ghost before = candidates@;
        insert(&mut candidates, cell);
        assert(beside(cell, cells@));
        let ring = neighbors(cell);
        let ghost places = ring@.map_values(|c: Cell| place(c));
        assert(places.len() == 8);
        let mut k: usize = 0;
        while k < 8
            invariant
                k <= 8,
                ring.len() == 8,
                i < cells.len(),
                cell == cells@[i as int],
                within(cells@, 2),
                places == ring@.map_values(|c: Cell| place(c)),
                places == around(place(cell)),
                candidates@.no_duplicates(),
                near(candidates@, cells@),
                live(candidates@).contains(place(cell)),
                forall|p: (int, int)| live(before).contains(p) ==> live(candidates@).contains(p),
                forall|t: int| 0 <= t < k ==> live(candidates@).contains(#[trigger] places[t]),
            decreases 8 - k,
        {
            assert(places[k as int] == place(ring@[k as int]));
            assert(beside(ring@[k as int], cells@));
            insert(&mut candidates, ring[k]);
            k += 1;
        }
        i += 1;
    }
    let mut next: Vec<Cell> = Vec::new();
    let mut j: usize = 0;
    assert(live(next@) =~= Set::<(int, int)>::empty());
    while j < candidates.len()
        invariant
            j <= candidates.len(),
            alive == live(cells@),
            near(candidates@, cells@),
            within(cells@, 2),
            next@.no_duplicates(),
            near(next@, cells@),
            forall|p: (int, int)|
                #![trigger live(next@).contains(p)]
                #![trigger kept(alive, candidates@, j as int, p)]
                live(next@).contains(p) <==> kept(alive, candidates@, j as int, p),
        decreases candidates.len() - j,
    {
        let cell = candidates[j];
        proof {
            assert(beside(cell, cells@));
        }
        let count = neighbor_count(cell, cells);
        let was_alive = is_alive(cells, cell);
        let ghost before = next@;
        if (was_alive && (count == 2 || count == 3)) || (!was_alive && count == 3) {
            insert(&mut next, cell);
        }
        proof {
            let here = place(cell);
            let taken = (was_alive && (count == 2 || count == 3)) || (!was_alive && count == 3);
            assert(taken == alive_next(alive, here));
            assert(place(candidates@[j as int]) == here);
            assert forall|p: (int, int)|
                #![trigger live(next@).contains(p)]
                #![trigger kept(alive, candidates@, j + 1, p)]
                live(next@).contains(p) <==> kept(alive, candidates@, j + 1, p) by {
                assert(live(before).contains(p) <==> kept(alive, candidates@, j as int, p));
                if kept(alive, candidates@, j as int, p) {
                    let t = choose|t: int| 0 <= t < j && place(#[trigger] candidates@[t]) == p;
                    assert(0 <= t < j + 1 && place(candidates@[t]) == p);
                }
                if kept(alive, candidates@, j + 1, p) {
                    let t = choose|t: int| 0 <= t < j + 1 && place(#[trigger] candidates@[t]) == p;
                    if t < j {
                        assert(0 <= t < j && place(candidates@[t]) == p);
                    } else {
                        assert(p == here);
                    }
                }
                if taken {
                    assert(live(next@) == live(before).insert(here));
                } else {
                    assert(next@ == before);
                }
            }
        }
        j += 1;
    }
    proof {
        assert forall|p: (int, int)| live(next@).contains(p) == step_model(alive).contains(p) by {
            if alive_next(alive, p) {
                assert forall|q: (int, int)| alive.contains(q) implies live(candidates@).contains(q)
                    && forall|k: int|
                    0 <= k < 8 ==> live(candidates@).contains(#[trigger] around(q)[k]) by {
                    let t = choose|t: int| 0 <= t < cells@.len() && place(#[trigger] cells@[t]) == q;
                    assert(live(candidates@).contains(place(cells@[t])));
                }
                lemma_reached(alive, live(candidates@), p);
            }
        }
        assert(live(next@) =~= step_model(alive));
    }
    next
}

/// The generation that comes `generations` steps after `cells`.
///
/// Each step moves the live cells by at most one column and one row, so
/// the cells have to keep a distance of `generations + 1` from the ends of
/// the coordinate range.
pub fn life(cells: Vec<Cell>, generations: usize) -> (last: Vec<Cell>)
    requires
        generations > 0 ==> within(cells@, generations + 1),
    ensures
        live(last@) == life_model(live(cells@), generations as nat),
        generations == 0 ==> last@ == cells@,
{
    let ghost first = live(cells@);
    let ghost given = cells@;
    let mut cells = cells;
    let mut done: usize = 0;
    while done < generations
        invariant
            done <= generations,
            done == 0 ==> cells@ == given,
            done < generations ==> within(cells@, generations - done + 1),
            life_model(live(cells@), (generations - done) as nat) == life_model(
                first,
                generations as nat,
            ),
            generations == 0 ==> first == live(cells@),
        decreases generations - done,
    {
        let ghost before = cells@;
        proof {
            assert(within(before, 2)) by {
                assert forall|i: int| 0 <= i < before.len() implies {
                    &&& i32::MIN + 2 <= (#[trigger] before[i]).0 <= i32::MAX - 2
                    &&& i32::MIN + 2 <= before[i].1 <= i32::MAX - 2
                } by {}
            }
        }
        cells = step(&cells);
        proof {
            lemma_near_within(cells@, before, generations - done + 1);
        }
        done += 1;
    }
    cells
}

} // verus!
