//! Same-color propagation: the flood fill the resolver runs once per lock.
//!
//! Starting at the landing coordinate, the fill walks the four orthogonal
//! neighbors, collects every connected occupant of the landing color, and
//! never collects the same cell twice. The result lists the identities of
//! exactly the cells of that connected region, the landing cell excluded.

use vstd::prelude::*;

use crate::block::BlockColor;
use crate::board::{cell_index, BlockMap};
use crate::coords::{adjacent, in_bounds, Coords, BOARD_HEIGHT, BOARD_WIDTH};

verus! {

/// The cell holds an occupant of this color.
pub open spec fn colored(m: BlockMap, c: Coords, color: BlockColor) -> bool {
    m.at(c) matches Some(o) && o.color == color
}

/// Region membership with a bounded path: `c` is included when it is not
/// the origin, holds a same-colored occupant, and either touches the
/// origin or touches a cell included with a shorter path.
pub open spec fn reach_k(
    m: BlockMap,
    origin: Coords,
    color: BlockColor,
    c: Coords,
    k: nat,
) -> bool
    decreases k,
{
    if k == 0 {
        false
    } else {
        c != origin && colored(m, c, color) && (adjacent(origin, c) || exists|b: Coords|
            reach_k(m, origin, color, b, (k - 1) as nat) && #[trigger] adjacent(b, c))
    }
}

/// Membership in the same-color region of a landing: connected to the
/// origin through same-colored occupants by orthogonal steps. The origin
/// itself is never a member: the landing block is the region's source,
/// not one of its own neighbors.
pub open spec fn reaches(m: BlockMap, origin: Coords, color: BlockColor, c: Coords) -> bool {
    exists|k: nat| reach_k(m, origin, color, c, k)
}

/// A member of the region holds a same-colored occupant, lies on the
/// board, and is not the origin.
pub proof fn lemma_reaches_is_colored(m: BlockMap, origin: Coords, color: BlockColor, c: Coords)
    requires
        reaches(m, origin, color, c),
    ensures
        colored(m, c, color),
        in_bounds(c),
        c != origin,
{
    let k = choose|k: nat| reach_k(m, origin, color, c, k);
    assert(k != 0);
}

/// Number of cells marked in a visited bitmap.
spec fn count_marked(s: Seq<bool>) -> nat
    decreases s.len(),
{
    if s.len() == 0 {
        0
    } else {
        count_marked(s.drop_last()) + if s.last() {
            1nat
        } else {
            0nat
        }
    }
}

proof fn lemma_count_marked_le(s: Seq<bool>)
    ensures
        count_marked(s) <= s.len(),
    decreases s.len(),
{
    if s.len() > 0 {
        lemma_count_marked_le(s.drop_last());
    }
}

proof fn lemma_count_marked_update(s: Seq<bool>, j: int, v: bool)
    requires
        0 <= j < s.len(),
    ensures
        count_marked(s.update(j, v)) == count_marked(s) + (if v {
            1int
        } else {
            0int
        }) - (if s[j] {
            1int
        } else {
            0int
        }),
    decreases s.len(),
{
    let t = s.update(j, v);
    if j == s.len() - 1 {
        assert(t.drop_last() =~= s.drop_last());
    } else {
        assert(t.drop_last() =~= s.drop_last().update(j, v));
        lemma_count_marked_update(s.drop_last(), j, v);
        assert(t.last() == s.last());
    }
}

/// Neighbor of `c` in scan direction `d`: below, left, above, right.
pub open spec fn dir_neighbor(c: Coords, d: int) -> Coords {
    if d == 0 {
        Coords { x: c.x, y: (c.y - 1) as i32 }
    } else if d == 1 {
        Coords { x: (c.x - 1) as i32, y: c.y }
    } else if d == 2 {
        Coords { x: c.x, y: (c.y + 1) as i32 }
    } else {
        Coords { x: (c.x + 1) as i32, y: c.y }
    }
}

/// Every same-colored neighbor of `c` is already marked.
pub open spec fn neighbors_done(
    m: BlockMap,
    color: BlockColor,
    visited: Seq<bool>,
    c: Coords,
) -> bool {
    forall|b: Coords| #[trigger] adjacent(c, b) && colored(m, b, color) ==> visited[cell_index(b)]
}

/// The four orthogonal neighbors of an in-bounds cell are exactly the
/// four scan directions.
proof fn lemma_adjacent_is_dir(c: Coords, b: Coords)
    requires
        adjacent(c, b),
        in_bounds(c),
    ensures
        exists|d: int| 0 <= d < 4 && b == #[trigger] dir_neighbor(c, d),
{
    if b.x == c.x && b.y == c.y - 1 {
        assert(b == dir_neighbor(c, 0));
    } else if b.x == c.x - 1 && b.y == c.y {
        assert(b == dir_neighbor(c, 1));
    } else if b.x == c.x && b.y == c.y + 1 {
        assert(b == dir_neighbor(c, 2));
    } else {
        assert(b == dir_neighbor(c, 3));
    }
}

/// Once a marked set is closed under same-colored adjacency and holds the
/// origin, it holds the whole region.
proof fn lemma_region_in_closed_set(
    m: BlockMap,
    origin: Coords,
    color: BlockColor,
    visited: Seq<bool>,
    c: Coords,
    k: nat,
)
    requires
        in_bounds(origin),
        visited.len() == BOARD_WIDTH * BOARD_HEIGHT,
        visited[cell_index(origin)],
        forall|cc: Coords|
            in_bounds(cc) && visited[#[trigger] cell_index(cc)] ==> neighbors_done(
                m,
                color,
                visited,
                cc,
            ),
        reach_k(m, origin, color, c, k),
    ensures
        in_bounds(c),
        visited[cell_index(c)],
    decreases k,
{
    assert(colored(m, c, color));
    assert(in_bounds(c));
    if adjacent(origin, c) {
        assert(neighbors_done(m, color, visited, origin));
    } else {
        let b = choose|b: Coords|
            reach_k(m, origin, color, b, (k - 1) as nat) && #[trigger] adjacent(b, c);
        lemma_region_in_closed_set(m, origin, color, visited, b, (k - 1) as nat);
        assert(neighbors_done(m, color, visited, b));
    }
}

/// The identity `e` belongs to a block of the landing's same-color
/// region.
pub open spec fn region_entry(m: BlockMap, origin: Coords, color: BlockColor, e: u64) -> bool {
    exists|c: Coords|
        #[trigger] reaches(m, origin, color, c) && (m.at(c) matches Some(o) && o.entity == e)
}

/// The connected same-color region of a landing, as a set of cells.
pub open spec fn region_set(m: BlockMap, origin: Coords, color: BlockColor) -> Set<Coords> {
    Set::new(|c: Coords| reaches(m, origin, color, c))
}

/// Flood-fill count: a duplicate-free list of identities that collects
/// the region completely and soundly — what
/// [`find_same_color_neighbors`] returns — has exactly one entry per
/// block of the region.
pub proof fn lemma_region_count(m: BlockMap, origin: Coords, color: BlockColor, r: Seq<u64>)
    requires
        m.wf(),
        r.no_duplicates(),
        forall|i: int| 0 <= i < r.len() ==> region_entry(m, origin, color, #[trigger] r[i]),
        forall|c: Coords|
            #[trigger] reaches(m, origin, color, c) ==> r.contains(m.at(c)->0.entity),
    ensures
        region_set(m, origin, color).finite(),
        r.len() == region_set(m, origin, color).len(),
{
    broadcast use vstd::seq_lib::seq_to_set_is_finite;
    broadcast use vstd::set::group_set_axioms;

    let ids = r.to_set();
    let region = region_set(m, origin, color);
    let f = |e: u64|
        choose|c: Coords|
            #[trigger] reaches(m, origin, color, c) && (m.at(c) matches Some(o) && o.entity == e);
    r.unique_seq_to_set();

    assert forall|e: u64| #[trigger] ids.contains(e) implies reaches(m, origin, color, f(e))
        && m.at(f(e)) is Some && m.at(f(e))->0.entity == e by {
        let i = choose|i: int| 0 <= i < r.len() && r[i] == e;
        assert(region_entry(m, origin, color, r[i]));
        assert(reaches(m, origin, color, f(e)) && (m.at(f(e)) matches Some(o) && o.entity == e));
    }

    assert(ids.map(f) == region) by {
        assert forall|c: Coords| #[trigger] region.contains(c) implies ids.map(f).contains(c) by {
            lemma_reaches_is_colored(m, origin, color, c);
            let e = m.at(c)->0.entity;
            assert(r.contains(e));
            assert(ids.contains(e));
            // identities are unique on the board, so the cell the
            // identity picks out is c itself
            assert(f(e) == c);
            assert(ids.map(f).contains(c));
        }
        assert forall|c: Coords| #[trigger] ids.map(f).contains(c) implies region.contains(c) by {
            let e = choose|x: u64| ids.contains(x) && c == f(x);
            assert(reaches(m, origin, color, f(e)));
        }
    }

    assert(vstd::relations::injective_on(f, ids)) by {
        assert forall|e1: u64, e2: u64|
            ids.contains(e1) && ids.contains(e2) && #[trigger] f(e1) == #[trigger] f(
                e2,
            ) implies e1 == e2 by {
            assert(m.at(f(e1))->0.entity == e1);
            assert(m.at(f(e2))->0.entity == e2);
        }
    }
    vstd::set_lib::lemma_map_size(ids, region, f);
}

/// An identity in the result is backed by a marked non-origin cell.
spec fn result_entry_ok(m: BlockMap, origin: Coords, visited: Seq<bool>, e: u64) -> bool {
    exists|c: Coords|
        in_bounds(c) && c != origin && visited[#[trigger] cell_index(c)] && (m.at(
            c,
        ) matches Some(o) && o.entity == e)
}

/// Finds the same-colored region connected to the landing coordinate and
/// returns the identities of its blocks, each exactly once, the landing
/// cell itself never among them.
pub fn find_same_color_neighbors(map: &BlockMap, pos: &Coords, color: BlockColor) -> (r: Vec<u64>)
    requires
        map.wf(),
        in_bounds(*pos),
    ensures
        r@.len() <= BOARD_WIDTH * BOARD_HEIGHT,
        r@.no_duplicates(),
        forall|c: Coords|
            #[trigger] reaches(*map, *pos, color, c) ==> r@.contains(map.at(c)->0.entity),
        forall|i: int| 0 <= i < r@.len() ==> region_entry(*map, *pos, color, #[trigger] r@[i]),
        map.at(*pos) matches Some(o) ==> !r@.contains(o.entity),
{
    let n: usize = (BOARD_WIDTH * BOARD_HEIGHT) as usize;
    let mut visited: Vec<bool> = Vec::new();
    for i in 0..n
        invariant
            visited@.len() == i,
            count_marked(visited@) == 0,
            forall|j: int| 0 <= j < i ==> !(#[trigger] visited@[j]),
    {
        proof {
            assert(visited@.push(false).drop_last() =~= visited@);
        }
        visited.push(false);
    }

    let oi: usize = (pos.x * BOARD_HEIGHT + pos.y) as usize;
    proof {
        lemma_count_marked_update(visited@, oi as int, true);
    }
    visited.set(oi, true);

    let mut todo: Vec<Coords> = Vec::new();
    todo.push(*pos);
    let mut result: Vec<u64> = Vec::new();
    proof {
        lemma_count_marked_le(visited@);
        assert(todo@[0] == *pos);
        assert forall|c: Coords|
            in_bounds(c) && visited@[#[trigger] cell_index(c)] implies c == *pos by {
            if cell_index(c) != cell_index(*pos) {
                assert(!visited@[cell_index(c)]);
            } else {
                crate::board::lemma_cell_index_injective(c, *pos);
            }
        }
    }

    while todo.len() > 0
        invariant
            map.wf(),
            in_bounds(*pos),
            visited@.len() == BOARD_WIDTH * BOARD_HEIGHT,
            visited@[cell_index(*pos)],
            count_marked(visited@) <= visited@.len(),
            forall|i: int|
                0 <= i < todo@.len() ==> in_bounds(#[trigger] todo@[i]) && visited@[cell_index(
                    todo@[i],
                )],
            forall|c: Coords|
                in_bounds(c) && c != *pos && visited@[#[trigger] cell_index(c)] ==> colored(
                    *map,
                    c,
                    color,
                ) && reaches(*map, *pos, color, c),
            forall|c: Coords|
                in_bounds(c) && visited@[#[trigger] cell_index(c)] ==> todo@.contains(c)
                    || neighbors_done(*map, color, visited@, c),
            forall|c: Coords|
                in_bounds(c) && c != *pos && visited@[#[trigger] cell_index(c)]
                    ==> result@.contains(map.at(c)->0.entity),
            forall|i: int|
                0 <= i < result@.len() ==> result_entry_ok(
                    *map,
                    *pos,
                    visited@,
                    #[trigger] result@[i],
                ),
            result@.len() <= count_marked(visited@),
            result@.no_duplicates(),
        decreases 2 * (visited@.len() - count_marked(visited@)) + todo@.len(),
    {
        let ghost todo0 = todo@;
        let ghost cnt0 = count_marked(visited@);
        let c = todo.pop().unwrap();
        proof {
            assert(todo0[todo0.len() - 1] == c);
            assert forall|c2: Coords|
                in_bounds(c2) && visited@[#[trigger] cell_index(c2)] implies todo@.contains(c2)
                || neighbors_done(*map, color, visited@, c2) || c2 == c by {
                if !neighbors_done(*map, color, visited@, c2) && c2 != c {
                    assert(todo0.contains(c2));
                    let i = choose|i: int| 0 <= i < todo0.len() && todo0[i] == c2;
                    assert(todo@[i] == c2);
                }
            }
        }
        for dir in 0..4usize
            invariant
                map.wf(),
                in_bounds(*pos),
                in_bounds(c),
                visited@.len() == BOARD_WIDTH * BOARD_HEIGHT,
                visited@[cell_index(*pos)],
                visited@[cell_index(c)],
                count_marked(visited@) <= visited@.len(),
                2 * (visited@.len() - count_marked(visited@)) + todo@.len() + 1 <= 2 * (
                visited@.len() - cnt0) + todo0.len(),
                forall|i: int|
                    0 <= i < todo@.len() ==> in_bounds(#[trigger] todo@[i]) && visited@[cell_index(
                        todo@[i],
                    )],
                forall|c2: Coords|
                    in_bounds(c2) && c2 != *pos && visited@[#[trigger] cell_index(c2)] ==> colored(
                        *map,
                        c2,
                        color,
                    ) && reaches(*map, *pos, color, c2),
                forall|c2: Coords|
                    in_bounds(c2) && visited@[#[trigger] cell_index(c2)] ==> todo@.contains(c2)
                        || neighbors_done(*map, color, visited@, c2) || c2 == c,
                forall|d: int|
                    0 <= d < dir && colored(*map, #[trigger] dir_neighbor(c, d), color)
                        ==> visited@[cell_index(dir_neighbor(c, d))],
                forall|c2: Coords|
                    in_bounds(c2) && c2 != *pos && visited@[#[trigger] cell_index(c2)]
                        ==> result@.contains(map.at(c2)->0.entity),
                forall|i: int|
                    0 <= i < result@.len() ==> result_entry_ok(
                        *map,
                        *pos,
                        visited@,
                        #[trigger] result@[i],
                    ),
                result@.len() <= count_marked(visited@),
                result@.no_duplicates(),
        {
            let nb: Coords = if dir == 0 {
                Coords::new(c.x, c.y - 1)
            } else if dir == 1 {
                Coords::new(c.x - 1, c.y)
            } else if dir == 2 {
                Coords::new(c.x, c.y + 1)
            } else {
                Coords::new(c.x + 1, c.y)
            };
            proof {
                assert(nb == dir_neighbor(c, dir as int));
                assert(adjacent(c, nb));
            }
            match map.get_block(&nb) {
                Some(o) => {
                    if o.color == color {
                        proof {
                            assert(in_bounds(nb));
                            assert(colored(*map, nb, color));
                        }
                        let ni: usize = (nb.x * BOARD_HEIGHT + nb.y) as usize;
                        if !visited[ni] {
                            let ghost vis0 = visited@;
                            let ghost res0 = result@;
                            let ghost todo_a = todo@;
                            proof {
                                lemma_count_marked_update(visited@, ni as int, true);
                                lemma_count_marked_le(visited@.update(ni as int, true));
                                // nb is a region member: one step from c
                                assert(nb != *pos);
                                if c == *pos {
                                    assert(reach_k(*map, *pos, color, nb, 1));
                                    assert(reaches(*map, *pos, color, nb));
                                } else {
                                    let k = choose|k: nat| reach_k(*map, *pos, color, c, k);
                                    assert(reach_k(*map, *pos, color, c, ((k + 1) - 1) as nat));
                                    assert(reach_k(*map, *pos, color, nb, (k + 1) as nat));
                                    assert(reaches(*map, *pos, color, nb));
                                }
                            }
                            visited.set(ni, true);
                            todo.push(nb);
                            proof {
                                // the fresh identity differs from every collected one
                                assert forall|i: int| 0 <= i < result@.len() implies result@[i]
                                    != map.at(nb)->0.entity by {
                                    let ce = choose|ce: Coords|
                                        in_bounds(ce) && ce != *pos && vis0[#[trigger] cell_index(
                                            ce,
                                        )] && (map.at(ce) matches Some(o2) && o2.entity
                                            == result@[i]);
                                    assert(ce != nb);
                                }
                            }
                            result.push(map.get_block(&nb).unwrap().entity);
                            proof {
                                let ghost vis1 = visited@;
                                let ghost res1 = result@;
                                assert(todo@[todo@.len() - 1] == nb);
                                assert(res1[res1.len() - 1] == map.at(nb)->0.entity);
                                // marked cells only grew by nb
                                assert forall|c2: Coords|
                                    in_bounds(c2) && vis1[#[trigger] cell_index(c2)] && c2
                                        != nb implies vis0[cell_index(c2)] by {
                                    if cell_index(c2) == cell_index(nb) {
                                        crate::board::lemma_cell_index_injective(c2, nb);
                                    }
                                }
                                // collected identities carry over
                                assert forall|c2: Coords|
                                    in_bounds(c2) && c2 != *pos && vis1[#[trigger] cell_index(
                                        c2,
                                    )] implies res1.contains(map.at(c2)->0.entity) by {
                                    if c2 == nb {
                                        assert(res1[res1.len() - 1] == map.at(nb)->0.entity);
                                    } else {
                                        assert(res0.contains(map.at(c2)->0.entity));
                                        let i = choose|i: int|
                                            0 <= i < res0.len() && res0[i] == map.at(
                                                c2,
                                            )->0.entity;
                                        assert(res1[i] == map.at(c2)->0.entity);
                                    }
                                }
                                assert forall|i: int| 0 <= i < res1.len() implies result_entry_ok(
                                    *map,
                                    *pos,
                                    vis1,
                                    #[trigger] res1[i],
                                ) by {
                                    if i < res0.len() {
                                        assert(result_entry_ok(*map, *pos, vis0, res0[i]));
                                        let ce = choose|ce: Coords|
                                            in_bounds(ce) && ce != *pos && vis0[
                                            #[trigger] cell_index(ce)] && (map.at(
                                                ce,
                                            ) matches Some(o2) && o2.entity == res0[i]);
                                        assert(vis1[cell_index(ce)]);
                                        assert(result_entry_ok(*map, *pos, vis1, res1[i]));
                                    } else {
                                        assert(res1[i] == map.at(nb)->0.entity);
                                        assert(vis1[cell_index(nb)]);
                                    }
                                }
                                // frontier: nb is on the worklist, everyone else as before
                                assert forall|c2: Coords|
                                    in_bounds(c2) && vis1[#[trigger] cell_index(
                                        c2,
                                    )] implies todo@.contains(c2) || neighbors_done(
                                    *map,
                                    color,
                                    vis1,
                                    c2,
                                ) || c2 == c by {
                                    if c2 == nb {
                                        assert(todo@[todo@.len() - 1] == nb);
                                    } else if c2 != c {
                                        assert(vis0[cell_index(c2)]);
                                        if todo_a.contains(c2) {
                                            let i = choose|i: int|
                                                0 <= i < todo_a.len() && todo_a[i] == c2;
                                            assert(todo@[i] == c2);
                                        } else {
                                            assert(neighbors_done(*map, color, vis0, c2));
                                            assert forall|b: Coords|
                                                #[trigger] adjacent(c2, b) && colored(
                                                    *map,
                                                    b,
                                                    color,
                                                ) implies vis1[cell_index(b)] by {
                                                assert(vis0[cell_index(b)]);
                                            }
                                        }
                                    }
                                }
                            }
                        }
                    }
                },
                None => {},
            }
        }
        proof {
            // all four directions are handled: c's neighborhood is done
            assert forall|b: Coords| #[trigger] adjacent(c, b) && colored(*map, b, color)
                implies visited@[cell_index(b)] by {
                lemma_adjacent_is_dir(c, b);
                let d = choose|d: int| 0 <= d < 4 && b == dir_neighbor(c, d);
                assert(colored(*map, dir_neighbor(c, d), color));
            }
            assert(neighbors_done(*map, color, visited@, c));
        }
    }
    proof {
        // the worklist is empty: the marked set is closed, so it holds the
        // whole region, and the result collects it exactly
        assert forall|c: Coords| #[trigger] reaches(*map, *pos, color, c) implies result@.contains(
            map.at(c)->0.entity,
        ) by {
            let k = choose|k: nat| reach_k(*map, *pos, color, c, k);
            assert forall|cc: Coords|
                in_bounds(cc) && visited@[#[trigger] cell_index(cc)] implies neighbors_done(
                *map,
                color,
                visited@,
                cc,
            ) by {
                assert(!todo@.contains(cc));
            }
            lemma_region_in_closed_set(*map, *pos, color, visited@, c, k);
        }
        assert forall|i: int| 0 <= i < result@.len() implies region_entry(
            *map,
            *pos,
            color,
            #[trigger] result@[i],
        ) by {
            let ce = choose|ce: Coords|
                in_bounds(ce) && ce != *pos && visited@[#[trigger] cell_index(ce)] && (map.at(
                    ce,
                ) matches Some(o2) && o2.entity == result@[i]);
            assert(reaches(*map, *pos, color, ce));
        }
        if map.at(*pos) is Some {
            assert forall|i: int| 0 <= i < result@.len() implies result@[i] != map.at(
                *pos,
            )->0.entity by {
                let ce = choose|ce: Coords|
                    in_bounds(ce) && ce != *pos && visited@[#[trigger] cell_index(ce)] && (map.at(
                        ce,
                    ) matches Some(o2) && o2.entity == result@[i]);
            }
        }
    }
    result
}

} // verus!
