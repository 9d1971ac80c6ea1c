//! Random room placement with overlap rejection, joined by a minimum spanning
//! tree of corridors (Kruskal's algorithm) plus a few redundant corridors.
use crate::dungeon::{
    cell, has_no_doors, has_shape, Dungeon, DungeonBuildConfig, DungeonBuildError, DungeonBuilder,
    TileType,
};
use crate::grid::{
    all_reach, carve_corridor, carve_rect, connected, floor_connected, grows, in_grid, in_rect,
    lemma_connected_grows, lemma_connected_refl, lemma_connected_sym,
    lemma_connected_trans, lemma_corridor_connects, lemma_doors_keep_reach, lemma_floor_connected,
    lemma_rect_connected, new_cells_reach, new_wall_grid, passable, place_doors, doorless_grid, border_walls, corridor_carved, doors_placed, lemma_corridor_keeps_border, lemma_doors_keep_border, lemma_corridor_only_walls, lemma_only_walls_carved_refl,
    lemma_only_walls_carved_trans, only_walls_carved, after_doors, same_shape,
};
use crate::random::{coin_flip, random_between};
pub use crate::union_find::UnionFind;
use vstd::prelude::*;

verus! {

/// A rectangular room with its center.
#[derive(Debug, Copy, Clone)]
pub struct Room {
    pub x: usize,
    pub y: usize,
    pub width: usize,
    pub height: usize,
    pub center_x: usize,
    pub center_y: usize,
}

/// The half-open rectangles `[x, x + width) × [y, y + height)` of `a` and `b` share a cell.
pub open spec fn rooms_overlap(a: Room, b: Room) -> bool {
    &&& a.x < b.x + b.width
    &&& a.x + a.width > b.x
    &&& a.y < b.y + b.height
    &&& a.y + a.height > b.y
}

/// No two rooms of `rooms` overlap.
pub open spec fn pairwise_disjoint(rooms: Seq<Room>) -> bool {
    forall|i: int, j: int|
        0 <= i < rooms.len() && 0 <= j < rooms.len() && i != j ==> !rooms_overlap(
            #[trigger] rooms[i],
            #[trigger] rooms[j],
        )
}

impl Room {
    /// The room's fields agree with its rectangle: the center is the middle
    /// cell (rounded down), and the room's far edges fit in `usize`.
    pub open spec fn wf(&self) -> bool {
        &&& self.x + self.width <= usize::MAX
        &&& self.y + self.height <= usize::MAX
        &&& self.center_x == self.x + self.width / 2
        &&& self.center_y == self.y + self.height / 2
    }

    pub fn new(x: usize, y: usize, width: usize, height: usize) -> (r: Room)
        requires
            x + width <= usize::MAX,
            y + height <= usize::MAX,
        ensures
            r.wf(),
            r.x == x && r.y == y && r.width == width && r.height == height,
    {
        let center_x = x + width / 2;
        let center_y = y + height / 2;
        Room { x, y, width, height, center_x, center_y }
    }

    pub fn intersects(&self, other: &Room) -> (r: bool)
        requires
            self.wf(),
            other.wf(),
        ensures
            r == rooms_overlap(*self, *other),
    {
        self.x < other.x + other.width && self.x + self.width > other.x && self.y < other.y
            + other.height && self.y + self.height > other.y
    }
}

/// Every room of `rooms` is well formed, between `min` and `max` on each side,
/// and lies in columns `1..width - 1` and rows `1..height - 1` with at least
/// one wall between it and the far border.
pub open spec fn rooms_placed(rooms: Seq<Room>, width: int, height: int, min: int, max: int) -> bool {
    forall|i: int|
        0 <= i < rooms.len() ==> {
            let r = #[trigger] rooms[i];
            &&& r.wf()
            &&& min <= r.width <= max
            &&& min <= r.height <= max
            &&& 1 <= r.x && r.x + r.width + 2 <= width
            &&& 1 <= r.y && r.y + r.height + 2 <= height
        }
}

/// Adds `candidate` to `rooms` when it overlaps none of them; says whether it did.
pub fn try_place_room(rooms: &mut Vec<Room>, candidate: Room) -> (placed: bool)
    requires
        candidate.wf(),
        forall|i: int| 0 <= i < old(rooms)@.len() ==> (#[trigger] old(rooms)@[i]).wf(),
    ensures
        placed == forall|i: int|
            0 <= i < old(rooms)@.len() ==> !rooms_overlap(candidate, #[trigger] old(rooms)@[i]),
        final(rooms)@ == if placed {
            old(rooms)@.push(candidate)
        } else {
            old(rooms)@
        },
{
    let mut k: usize = 0;
    while k < rooms.len()
        invariant
            k <= rooms@.len(),
            forall|i: int| 0 <= i < rooms@.len() ==> (#[trigger] rooms@[i]).wf(),
            candidate.wf(),
            forall|i: int| 0 <= i < k ==> !rooms_overlap(candidate, #[trigger] rooms@[i]),
        decreases rooms@.len() - k,
    {
        if candidate.intersects(&rooms[k]) {
            return false;
        }
        k += 1;
    }
    rooms.push(candidate);
    true
}

/// Draws up to `(width * height) / (min_size * max_size)` candidate rooms and
/// keeps those that fit with a margin and overlap no room kept before.
pub fn place_rooms(width: usize, height: usize, min_size: usize, max_size: usize) -> (rooms: Vec<Room>)
    requires
        0 < min_size <= max_size,
    ensures
        pairwise_disjoint(rooms@),
        rooms_placed(rooms@, width as int, height as int, min_size as int, max_size as int),
        min_size + 3 > width || min_size + 3 > height ==> rooms@.len() == 0,
        min_size * max_size <= width * height && max_size + 3 <= width && max_size + 3 <= height
            ==> rooms@.len() > 0,
        width * height < min_size * max_size ==> rooms@.len() == 0,
{
    let mut rooms: Vec<Room> = Vec::new();
    let (w128, h128, min128, max128) = (width as u128, height as u128, min_size as u128, max_size as u128);
    assert(w128 * h128 <= u128::MAX) by (nonlinear_arith)
        requires
            w128 <= usize::MAX,
            h128 <= usize::MAX,
    ;
    assert(0 < min128 * max128 <= u128::MAX) by (nonlinear_arith)
        requires
            0 < min128 <= usize::MAX,
            0 < max128 <= usize::MAX,
    ;
    let budget: u128 = (w128 * h128) / (min128 * max128);
    assert(min_size * max_size <= width * height ==> budget >= 1) by (nonlinear_arith)
        requires
            budget == (w128 * h128) / (min128 * max128),
            w128 == width,
            h128 == height,
            min128 == min_size,
            max128 == max_size,
            min128 * max128 > 0,
    ;
    assert(width * height < min_size * max_size ==> budget == 0) by (nonlinear_arith)
        requires
            budget == (w128 * h128) / (min128 * max128),
            w128 == width,
            h128 == height,
            min128 == min_size,
            max128 == max_size,
            min128 * max128 > 0,
    ;
    let mut attempt: u128 = 0;
    while attempt < budget
        invariant
            attempt <= budget,
            budget == 0 ==> rooms@.len() == 0,
            attempt > 0 && max_size + 3 <= width && max_size + 3 <= height ==> rooms@.len() > 0,
            0 < min_size <= max_size,
            pairwise_disjoint(rooms@),
            rooms_placed(rooms@, width as int, height as int, min_size as int, max_size as int),
            min_size + 3 > width || min_size + 3 > height ==> rooms@.len() == 0,
        decreases budget - attempt,
    {
        attempt += 1;
        let w = random_between(min_size, max_size);
        let h = random_between(min_size, max_size);
        if width < 3 || height < 3 || w > width - 3 || h > height - 3 {
            continue;
        }
        let x = random_between(1, width - w - 2);
        let y = random_between(1, height - h - 2);
        let candidate = Room::new(x, y, w, h);
        let ghost before = rooms@;
        if try_place_room(&mut rooms, candidate) {
            assert forall|i: int, j: int|
                0 <= i < rooms@.len() && 0 <= j < rooms@.len() && i != j implies !rooms_overlap(
                #[trigger] rooms@[i],
                #[trigger] rooms@[j],
            ) by {
                if i == before.len() {
                    assert(!rooms_overlap(candidate, before[j]));
                } else if j == before.len() {
                    assert(!rooms_overlap(candidate, before[i]));
                } else {
                    assert(!rooms_overlap(before[i], before[j]));
                }
            }
        }
    }
    rooms
}

/// The squared distance between the centers of `a` and `b`.
pub open spec fn center_distance_squared(a: Room, b: Room) -> int {
    (a.center_x - b.center_x) * (a.center_x - b.center_x) + (a.center_y - b.center_y) * (a.center_y
        - b.center_y)
}

/// An edge of the room graph: `(i, j, w)` joins rooms `i < j`, and `w` is the
/// squared distance between their centers, capped at `u128::MAX` (which no
/// grid that fits in memory reaches). Squared distances order the edges as
/// the distances do.
pub open spec fn edge_ok(rooms: Seq<Room>, e: (usize, usize, u128)) -> bool {
    &&& e.0 < e.1 < rooms.len()
    &&& e.2 == if center_distance_squared(rooms[e.0 as int], rooms[e.1 as int]) > u128::MAX {
        u128::MAX as int
    } else {
        center_distance_squared(rooms[e.0 as int], rooms[e.1 as int])
    }
}

/// Some edge of `edges` joins rooms `a` and `b`.
pub open spec fn has_edge(edges: Seq<(usize, usize, u128)>, a: int, b: int) -> bool {
    exists|k: int| 0 <= k < edges.len() && (#[trigger] edges[k]).0 == a && edges[k].1 == b
}

pub open spec fn sorted_by_weight(edges: Seq<(usize, usize, u128)>) -> bool {
    forall|a: int, b: int| 0 <= a < b < edges.len() ==> (#[trigger] edges[a]).2 <= (#[trigger] edges[b]).2
}

fn abs_diff(a: usize, b: usize) -> (r: u128)
    ensures
        r == if a >= b { a - b } else { b - a },
{
    if a >= b {
        (a - b) as u128
    } else {
        (b - a) as u128
    }
}

fn distance_squared(a: &Room, b: &Room) -> (r: u128)
    ensures
        r == if center_distance_squared(*a, *b) > u128::MAX {
            u128::MAX as int
        } else {
            center_distance_squared(*a, *b)
        },
{
    let dx = abs_diff(a.center_x, b.center_x);
    let dy = abs_diff(a.center_y, b.center_y);
    assert(dx * dx <= u128::MAX) by (nonlinear_arith)
        requires
            dx <= usize::MAX,
    ;
    assert(dy * dy <= u128::MAX) by (nonlinear_arith)
        requires
            dy <= usize::MAX,
    ;
    assert(dx * dx == (a.center_x - b.center_x) * (a.center_x - b.center_x)) by (nonlinear_arith)
        requires
            dx == a.center_x - b.center_x || dx == b.center_x - a.center_x,
    ;
    assert(dy * dy == (a.center_y - b.center_y) * (a.center_y - b.center_y)) by (nonlinear_arith)
        requires
            dy == a.center_y - b.center_y || dy == b.center_y - a.center_y,
    ;
    (dx * dx).saturating_add(dy * dy)
}

/// Every pair of rooms as an edge, in ascending order of length; edges of
/// equal length keep the order in which the pairs are enumerated.
pub fn edges_by_length(rooms: &Vec<Room>) -> (edges: Vec<(usize, usize, u128)>)
    ensures
        sorted_by_weight(edges@),
        forall|k: int| 0 <= k < edges@.len() ==> edge_ok(rooms@, #[trigger] edges@[k]),
        forall|a: int, b: int| 0 <= a < b < rooms@.len() ==> #[trigger] has_edge(edges@, a, b),
{
    let mut edges: Vec<(usize, usize, u128)> = Vec::new();
    let n = rooms.len();
    for i in 0..n
        invariant
            n == rooms@.len(),
            sorted_by_weight(edges@),
            forall|k: int| 0 <= k < edges@.len() ==> edge_ok(rooms@, #[trigger] edges@[k]),
            forall|a: int, b: int| 0 <= a < i && a < b < n ==> #[trigger] has_edge(edges@, a, b),
    {
        for j in i + 1..n
            invariant
                n == rooms@.len(),
                i < n,
                sorted_by_weight(edges@),
                forall|k: int| 0 <= k < edges@.len() ==> edge_ok(rooms@, #[trigger] edges@[k]),
                forall|a: int, b: int|
                    (0 <= a < i && a < b < n) || (a == i && i < b < j) ==> #[trigger] has_edge(
                        edges@,
                        a,
                        b,
                    ),
        {
            let w = distance_squared(&rooms[i], &rooms[j]);
            let mut pos: usize = edges.len();
            while pos > 0 && edges[pos - 1].2 > w
                invariant
                    pos <= edges@.len(),
                    sorted_by_weight(edges@),
                    forall|k: int| pos <= k < edges@.len() ==> (#[trigger] edges@[k]).2 > w,
                decreases pos,
            {
                pos -= 1;
            }
            let ghost before = edges@;
            edges.insert(pos, (i, j, w));
            assert forall|a: int, b: int| 0 <= a < b < edges@.len() implies (#[trigger] edges@[a]).2
                <= (#[trigger] edges@[b]).2 by {
                if pos > 0 {
                    assert(before[pos - 1].2 <= w);
                }
                if a < pos && b > pos {
                    assert(before[a].2 <= before[b - 1].2);
                }
            }
            assert forall|k: int| 0 <= k < edges@.len() implies edge_ok(rooms@, #[trigger] edges@[k]) by {
                if k < pos {
                    assert(edges@[k] == before[k]);
                } else if k > pos {
                    assert(edges@[k] == before[k - 1]);
                }
            }
            assert forall|a: int, b: int|
                (0 <= a < i && a < b < n) || (a == i && i < b < j + 1) implies #[trigger] has_edge(
                edges@,
                a,
                b,
            ) by {
                if a == i && b == j {
                    assert(edges@[pos as int] == (i, j, w));
                } else {
                    assert(has_edge(before, a, b));
                    let k = choose|k: int| 0 <= k < before.len() && (#[trigger] before[k]).0 == a && before[k].1 == b;
                    if k < pos {
                        assert(edges@[k] == before[k]);
                    } else {
                        assert(edges@[k + 1] == before[k]);
                    }
                }
            }
        }
    }
    edges
}

/// Whether `(i, j)` or `(j, i)` is among `pairs`.
fn has_pair(pairs: &Vec<(usize, usize)>, i: usize, j: usize) -> (r: bool)
    ensures
        r == exists|k: int| 0 <= k < pairs@.len() && (#[trigger] pairs@[k] == (i, j) || pairs@[k] == (j, i)),
{
    let mut k: usize = 0;
    while k < pairs.len()
        invariant
            k <= pairs@.len(),
            forall|m: int| 0 <= m < k ==> !(#[trigger] pairs@[m] == (i, j) || pairs@[m] == (j, i)),
        decreases pairs@.len() - k,
    {
        let (a, b) = pairs[k];
        if (a == i && b == j) || (a == j && b == i) {
            return true;
        }
        k += 1;
    }
    false
}

/// Places random non-overlapping rooms, then joins them by a minimum
/// spanning tree of L-shaped corridors and at most one redundant corridor.
pub struct RoomPlacementBuilder;

/// The center of a room as (row, column).
pub open spec fn center_cell(room: Room) -> (int, int) {
    (room.center_y as int, room.center_x as int)
}

/// `p` (row, column) is a cell of `room`.
pub open spec fn in_placed(room: Room, p: (int, int)) -> bool {
    in_rect(room.x as int, room.y as int, room.width as int, room.height as int, p.0, p.1)
}

/// Joins the centers of `room1` and `room2` by an L-shaped corridor whose
/// bend is chosen by a coin flip.
fn create_corridor(map: &mut Vec<Vec<TileType>>, room1: &Room, room2: &Room, width: usize, height: usize)
    requires
        doorless_grid(old(map)@, width as int, height as int),
        room1.center_x < width && room1.center_y < height,
        room2.center_x < width && room2.center_y < height,
    ensures
        doorless_grid(final(map)@, width as int, height as int),
        grows(old(map)@, final(map)@),
        connected(final(map)@, center_cell(*room1), center_cell(*room2)),
        new_cells_reach(old(map)@, final(map)@, center_cell(*room1)),
        exists|h: bool|
            #[trigger] corridor_carved(
                old(map)@,
                final(map)@,
                room1.center_x as int,
                room1.center_y as int,
                room2.center_x as int,
                room2.center_y as int,
                h,
            ),
        only_walls_carved(old(map)@, final(map)@),
{
    let horizontal_first = coin_flip();
    assert(old(map)@[0]@.len() == width);
    carve_corridor(map, room1.center_x, room1.center_y, room2.center_x, room2.center_y, horizontal_first);
    proof {
        assert(corridor_carved(
            old(map)@,
            map@,
            room1.center_x as int,
            room1.center_y as int,
            room2.center_x as int,
            room2.center_y as int,
            horizontal_first,
        ));
        lemma_corridor_only_walls(
            old(map)@,
            map@,
            room1.center_x as int,
            room1.center_y as int,
            room2.center_x as int,
            room2.center_y as int,
            horizontal_first,
        );
        lemma_corridor_connects(
            map@,
            room1.center_x as int,
            room1.center_y as int,
            room2.center_x as int,
            room2.center_y as int,
            horizontal_first,
        );
        assert forall|p: (int, int)| #[trigger] passable(map@, p) && !passable(old(map)@, p)
            implies connected(map@, p, center_cell(*room1)) by {
            assert(in_grid(old(map)@, p.0, p.1));
            assert(cell(map@, p.0, p.1) == cell(map@, p.0, p.1));
        }
    }
    assert forall|row: int| 0 <= row < height implies (#[trigger] map@[row])@.len() == width by {
        assert(old(map)@[row]@.len() == width);
    }
    assert forall|row: int, col: int| 0 <= row < map@.len() && 0 <= col < map@[row]@.len() implies cell(map@, row, col) != TileType::Door by {
        assert(in_grid(old(map)@, row, col));
    }
}

/// Each set of `uf` is made of rooms whose centers are joined in `map`.
#[verifier::opaque]
pub open spec fn sets_joined(uf: UnionFind, map: Seq<Vec<TileType>>, rooms: Seq<Room>) -> bool {
    forall|a: int, b: int|
        0 <= a < rooms.len() && 0 <= b < rooms.len() && #[trigger] uf.same_set(a, b) ==> connected(
            map,
            center_cell(rooms[a]),
            center_cell(rooms[b]),
        )
}

/// Every passable cell of `map` is joined to the center of some room.
#[verifier::opaque]
pub open spec fn reaches_a_room(map: Seq<Vec<TileType>>, rooms: Seq<Room>) -> bool {
    forall|p: (int, int)|
        #[trigger] passable(map, p) ==> exists|i: int|
            0 <= i < rooms.len() && #[trigger] connected(map, p, center_cell(rooms[i]))
}

impl DungeonBuilder for RoomPlacementBuilder {
    fn build(self, build_config: DungeonBuildConfig) -> (r: Result<Dungeon, DungeonBuildError>)
        ensures
            r is Err ==> r->Err_0 is NoRoomsCreated,
            build_config.room_size.min_room_size + 3 > build_config.dungeon_size.width
                || build_config.room_size.min_room_size + 3 > build_config.dungeon_size.height
                ==> r is Err,
            build_config.room_size.min_room_size * build_config.room_size.max_room_size
                <= build_config.dungeon_size.width * build_config.dungeon_size.height
                && build_config.room_size.max_room_size + 3 <= build_config.dungeon_size.width
                && build_config.room_size.max_room_size + 3 <= build_config.dungeon_size.height
                ==> r is Ok,
            build_config.dungeon_size.width * build_config.dungeon_size.height
                < build_config.room_size.min_room_size * build_config.room_size.max_room_size
                ==> r is Err,
            r is Ok ==> floor_connected(r->Ok_0.map@),
            r is Ok ==> made_from_choices(r->Ok_0.map@, build_config),
            r is Ok && build_config.should_place_doors ==> doors_placed(r->Ok_0.map@),
            r is Ok ==> border_walls(r->Ok_0.map@),
    {
        let width = build_config.dungeon_size.width;
        let height = build_config.dungeon_size.height;
        let room_min_size = build_config.room_size.min_room_size;
        let room_max_size = build_config.room_size.max_room_size;

        let mut map = new_wall_grid(width, height);
        proof {
            reveal(border_walls);
        }
        let rooms = place_rooms(width, height, room_min_size, room_max_size);
        if rooms.len() == 0 {
            return Err(DungeonBuildError::NoRoomsCreated);
        }
        for k in 0..rooms.len()
            invariant
                doorless_grid(map@, width as int, height as int),
                border_walls(map@),
                rooms_placed(rooms@, width as int, height as int, room_min_size as int, room_max_size as int),
                forall|i: int, p: (int, int)|
                    0 <= i < k && #[trigger] in_placed(rooms@[i], p) ==> passable(map@, p) && cell(
                        map@,
                        p.0,
                        p.1,
                    ) == TileType::Floor,
                forall|p: (int, int)|
                    #[trigger] passable(map@, p) ==> exists|i: int|
                        0 <= i < k && #[trigger] in_placed(rooms@[i], p),
        {
            let room = rooms[k];
            let ghost before = map@;
            carve_rect(&mut map, room.x, room.y, room.width, room.height);
            assert forall|row: int| 0 <= row < height implies (#[trigger] map@[row])@.len() == width by {
                assert(before[row]@.len() == width);
            }
            assert forall|row: int, col: int| 0 <= row < map@.len() && 0 <= col < map@[row]@.len() implies cell(map@, row, col) != TileType::Door by {
                assert(in_grid(before, row, col));
            }
            assert forall|i: int, p: (int, int)|
                0 <= i < k + 1 && #[trigger] in_placed(rooms@[i], p) implies passable(map@, p) && cell(
                map@,
                p.0,
                p.1,
            ) == TileType::Floor by {
                if i < k {
                    assert(passable(before, p));
                }
                assert(passable(map@, p));
                assert(cell(map@, p.0, p.1) == cell(map@, p.0, p.1));
            }
            reveal(border_walls);
            assert forall|r: int, c: int| #![trigger cell(map@, r, c)] in_grid(map@, r, c)
                && !crate::grid::is_interior(map@, r, c) implies cell(map@, r, c) == TileType::Wall by {
                assert(in_grid(before, r, c));
                assert(map@[0]@.len() == width && before[0]@.len() == width);
                assert(cell(before, r, c) == TileType::Wall);
            }
            assert forall|p: (int, int)| #[trigger] passable(map@, p) implies exists|i: int|
                0 <= i < k + 1 && #[trigger] in_placed(rooms@[i], p) by {
                if passable(before, p) {
                    let i = choose|i: int| 0 <= i < k && #[trigger] in_placed(rooms@[i], p);
                    assert(in_placed(rooms@[i], p));
                } else {
                    assert(in_grid(before, p.0, p.1));
                    assert(cell(map@, p.0, p.1) == cell(map@, p.0, p.1));
                    assert(in_placed(rooms@[k as int], p));
                }
            }
        }

        let ghost carved = map@;
        proof {
            lemma_only_walls_carved_refl(carved);
            assert forall|r: int, c: int| #![trigger cell(carved, r, c)] in_grid(carved, r, c) implies cell(carved, r, c)
                == if exists|i: int| 0 <= i < rooms@.len() && #[trigger] in_placed(rooms@[i], (r, c)) {
                TileType::Floor
            } else {
                TileType::Wall
            } by {
                if exists|i: int| 0 <= i < rooms@.len() && #[trigger] in_placed(rooms@[i], (r, c)) {
                    let i = choose|i: int| 0 <= i < rooms@.len() && #[trigger] in_placed(rooms@[i], (r, c));
                    assert(passable(carved, (r, c)));
                } else {
                    assert(!passable(carved, (r, c)));
                    assert(cell(carved, r, c) != TileType::Door);
                }
            }
            assert(rooms_grid(carved, rooms@));
        }
        let edges = edges_by_length(&rooms);
        let mut union_find = UnionFind::new(rooms.len());
        proof {
            reveal(sets_joined);
            reveal(reaches_a_room);
            assert forall|p: (int, int)| #[trigger] passable(map@, p) implies exists|i: int|
                0 <= i < rooms@.len() && #[trigger] connected(map@, p, center_cell(rooms@[i])) by {
                let i = choose|i: int| 0 <= i < rooms@.len() && #[trigger] in_placed(rooms@[i], p);
                let q = rooms@[i];
                assert(in_placed(q, center_cell(q)));
                assert forall|c: (int, int)| in_rect(q.x as int, q.y as int, q.width as int, q.height as int, c.0, c.1)
                    implies #[trigger] passable(map@, c) by {
                    assert(in_placed(rooms@[i], c));
                }
                lemma_rect_connected(map@, q.x as int, q.y as int, q.width as int, q.height as int, p, center_cell(q));
            }
            assert forall|a: int, b: int|
                0 <= a < rooms@.len() && 0 <= b < rooms@.len() && #[trigger] union_find.same_set(a, b)
                implies connected(map@, center_cell(rooms@[a]), center_cell(rooms@[b])) by {
                assert(a == b);
                assert(in_placed(rooms@[a], center_cell(rooms@[a])));
                lemma_connected_refl(map@, center_cell(rooms@[a]));
            }
        }
        let mut corridors: Vec<(usize, usize)> = Vec::new();
        let mut k: usize = 0;
        let ghost mut done = false;
        let ghost mut maps: Seq<Seq<Vec<TileType>>> = seq![carved];
        let ghost mut tree: Seq<(int, int)> = Seq::empty();
        proof {
            lemma_steps_start(carved, rooms@);
        }
        while k < edges.len()
            invariant_except_break
                !done,
            invariant
                doorless_grid(map@, width as int, height as int),
                rooms_placed(rooms@, width as int, height as int, room_min_size as int, room_max_size as int),
                forall|m: int| 0 <= m < edges@.len() ==> edge_ok(rooms@, #[trigger] edges@[m]),
                union_find.wf(),
                union_find.len() == rooms@.len(),
                sets_joined(union_find, map@, rooms@),
                reaches_a_room(map@, rooms@),
                only_walls_carved(carved, map@),
                border_walls(map@),
                0 < room_min_size,
                carved_in_steps(maps, tree, rooms@),
                maps.len() == tree.len() + 1,
                maps[0] == carved,
                maps.last() == map@,
                tree.len() + union_find.components() == rooms@.len(),
                corridors@.len() == tree.len(),
                forall|t: int|
                    0 <= t < tree.len() ==> #[trigger] tree[t] == (
                        corridors@[t].0 as int,
                        corridors@[t].1 as int,
                    ),
                forall|m: int| 0 <= m < k ==> #[trigger] union_find.same_set(edges@[m].0 as int, edges@[m].1 as int),
                k <= edges@.len(),
            ensures
                done || k >= edges@.len(),
                union_find.wf(),
                union_find.len() == rooms@.len(),
                doorless_grid(map@, width as int, height as int),
                sets_joined(union_find, map@, rooms@),
                reaches_a_room(map@, rooms@),
                only_walls_carved(carved, map@),
                border_walls(map@),
                carved_in_steps(maps, tree, rooms@),
                maps.len() == tree.len() + 1,
                maps[0] == carved,
                maps.last() == map@,
                tree.len() + union_find.components() == rooms@.len(),
                corridors@.len() == tree.len(),
                forall|t: int|
                    0 <= t < tree.len() ==> #[trigger] tree[t] == (
                        corridors@[t].0 as int,
                        corridors@[t].1 as int,
                    ),
                forall|m: int| 0 <= m < k ==> #[trigger] union_find.same_set(edges@[m].0 as int, edges@[m].1 as int),
                done ==> union_find.components() == 1,
            decreases edges@.len() - k,
        {
            let (i, j, _) = edges[k];
            assert(edge_ok(rooms@, edges@[k as int]));
            let ghost uf0 = union_find;
            let ri = union_find.find(i);
            let rj = union_find.find(j);
            let ghost uf1 = union_find;
            proof {
                assert forall|a: int, b: int| 0 <= a < rooms@.len() && 0 <= b < rooms@.len() implies
                    #[trigger] uf1.same_set(a, b) == uf0.same_set(a, b) by {
                    assert(uf1.root(a) == uf0.root(a));
                    assert(uf1.root(b) == uf0.root(b));
                }
            }
            if ri != rj {
                union_find.union(i, j);
                let ghost m0 = map@;
                create_corridor(&mut map, &rooms[i], &rooms[j], width, height);
                corridors.push((i, j));
                proof {
                    assert(!uf1.same_set(i as int, j as int));
                    lemma_steps_push(maps, tree, rooms@, map@, i as int, j as int);
                    assert(maps.push(map@)[0] == maps[0]);
                    maps = maps.push(map@);
                    tree = tree.push((i as int, j as int));
                    lemma_only_walls_carved_trans(carved, m0, map@);
                    lemma_keep_border(m0, map@, rooms@, i as int, j as int, width as int, height as int, room_min_size as int, room_max_size as int);
                    lemma_sets_joined_same(uf0, uf1, m0, rooms@);
                    lemma_union_joins(uf1, union_find, m0, map@, rooms@, i as int, j as int);
                    lemma_reach_after_corridor(m0, map@, rooms@, i as int);
                    assert forall|m: int| 0 <= m < k + 1 implies #[trigger] union_find.same_set(edges@[m].0 as int, edges@[m].1 as int) by {
                        assert(edge_ok(rooms@, edges@[m]));
                        if m < k {
                            assert(uf0.same_set(edges@[m].0 as int, edges@[m].1 as int));
                            assert(uf1.same_set(edges@[m].0 as int, edges@[m].1 as int));
                        } else {
                            assert(uf1.same_set(i as int, i as int));
                            assert(uf1.same_set(j as int, j as int));
                        }
                    }
                }
                if union_find.count() == 1 {
                    proof {
                        done = true;
                    }
                    break;
                }
            } else {
                proof {
                    assert forall|m: int| 0 <= m < k + 1 implies #[trigger] union_find.same_set(edges@[m].0 as int, edges@[m].1 as int) by {
                        assert(edge_ok(rooms@, edges@[m]));
                        if m < k {
                            assert(uf0.same_set(edges@[m].0 as int, edges@[m].1 as int));
                        }
                    }
                    lemma_sets_joined_same(uf0, union_find, map@, rooms@);
                }
            }
            k += 1;
        }
        let ghost hub = center_cell(rooms@[0]);
        proof {
            reveal(sets_joined);
            reveal(reaches_a_room);
            if done {
                union_find.lemma_single_set();
            }
            assert forall|a: int| 0 <= a < rooms@.len() implies #[trigger] connected(map@, center_cell(rooms@[a]), hub) by {
                if done {
                    assert(union_find.same_set(a, 0));
                } else if a > 0 {
                    assert(has_edge(edges@, 0, a));
                    let m = choose|m: int| 0 <= m < edges@.len() && (#[trigger] edges@[m]).0 == 0 && edges@[m].1 == a;
                    assert(union_find.same_set(edges@[m].0 as int, edges@[m].1 as int));
                    assert(union_find.same_set(0, a));
                    assert(connected(map@, center_cell(rooms@[0]), center_cell(rooms@[a])));
                    lemma_connected_sym(map@, center_cell(rooms@[0]), center_cell(rooms@[a]));
                } else {
                    assert(union_find.same_set(0, 0));
                }
            }
            assert forall|a: int| 0 <= a < rooms@.len() implies #[trigger] union_find.same_set(0, a) by {
                if done {
                    assert(union_find.same_set(0, a));
                } else if a > 0 {
                    assert(has_edge(edges@, 0, a));
                    let m = choose|m: int| 0 <= m < edges@.len() && (#[trigger] edges@[m]).0 == 0 && edges@[m].1 == a;
                    assert(union_find.same_set(edges@[m].0 as int, edges@[m].1 as int));
                }
            }
            assert forall|a: int, b: int| 0 <= a < union_find.len() && 0 <= b < union_find.len() implies #[trigger] union_find.same_set(a, b) by {
                assert(union_find.same_set(0, a));
                assert(union_find.same_set(0, b));
            }
            union_find.lemma_one_component();
            assert(tree.len() == rooms@.len() - 1);
            assert forall|p: (int, int)| #[trigger] passable(map@, p) implies connected(map@, p, hub) by {
                let c = choose|c: int| 0 <= c < rooms@.len() && #[trigger] connected(map@, p, center_cell(rooms@[c]));
                lemma_connected_trans(map@, p, center_cell(rooms@[c]), hub);
            }
        }

        let extra_corridors = random_between(0, 1);
        let mut added: usize = 0;
        let mut k: usize = 0;
        let ghost mut extra: Seq<(int, int)> = Seq::empty();
        assert(tree + extra =~= tree);
        while k < edges.len() && added < extra_corridors
            invariant
                doorless_grid(map@, width as int, height as int),
                rooms_placed(rooms@, width as int, height as int, room_min_size as int, room_max_size as int),
                forall|m: int| 0 <= m < edges@.len() ==> edge_ok(rooms@, #[trigger] edges@[m]),
                added <= extra_corridors <= 1,
                all_reach(map@, hub),
                only_walls_carved(carved, map@),
                border_walls(map@),
                0 < room_min_size,
                hub == center_cell(rooms@[0]),
                rooms@.len() > 0,
                forall|a: int| 0 <= a < rooms@.len() ==> #[trigger] connected(map@, center_cell(rooms@[a]), hub),
                carved_in_steps(maps, tree + extra, rooms@),
                maps.len() == tree.len() + extra.len() + 1,
                maps[0] == carved,
                maps.last() == map@,
                extra.len() == added,
                tree.len() == rooms@.len() - 1,
                corridors@.len() == tree.len(),
                forall|t: int|
                    0 <= t < tree.len() ==> #[trigger] tree[t] == (
                        corridors@[t].0 as int,
                        corridors@[t].1 as int,
                    ),
                forall|e: int| 0 <= e < extra.len() ==> !has_pair_spec(tree, (#[trigger] extra[e]).0, extra[e].1),
            decreases edges@.len() - k,
        {
            let (i, j, _) = edges[k];
            assert(edge_ok(rooms@, edges@[k as int]));
            if !has_pair(&corridors, i, j) {
                let ghost m0 = map@;
                create_corridor(&mut map, &rooms[i], &rooms[j], width, height);
                proof {
                    assert forall|t: int| 0 <= t < tree.len() implies !(#[trigger] tree[t] == (i as int, j as int) || tree[t] == (j as int, i as int)) by {
                        assert(!(corridors@[t] == (i, j) || corridors@[t] == (j, i)));
                    }
                    lemma_extra_step(maps, tree, extra, rooms@, map@, i as int, j as int);
                    maps = maps.push(map@);
                    extra = extra.push((i as int, j as int));
                    lemma_only_walls_carved_trans(carved, m0, map@);
                    lemma_keep_border(m0, map@, rooms@, i as int, j as int, width as int, height as int, room_min_size as int, room_max_size as int);
                    let ci = center_cell(rooms@[i as int]);
                    assert(connected(m0, ci, hub));
                    lemma_connected_grows(m0, map@, ci, hub);
                    assert forall|p: (int, int)| #[trigger] passable(map@, p) implies connected(map@, p, hub) by {
                        if passable(m0, p) {
                            lemma_connected_grows(m0, map@, p, hub);
                        } else {
                            lemma_connected_trans(map@, p, ci, hub);
                        }
                    }
                    assert forall|a: int| 0 <= a < rooms@.len() implies #[trigger] connected(map@, center_cell(rooms@[a]), hub) by {
                        lemma_connected_grows(m0, map@, center_cell(rooms@[a]), hub);
                    }
                }
                added += 1;
            }
            k += 1;
        }

        let ghost joined = map@;
        if build_config.should_place_doors {
            let ghost before = map@;
            place_doors(&mut map);
            assert forall|row: int| 0 <= row < height implies (#[trigger] map@[row])@.len() == width by {
                assert(before[row]@.len() == width);
            }
            proof {
                lemma_doors_keep_reach(before, map@, hub);
                lemma_doors_keep_border(before, map@);
            }
        }
        proof {
            lemma_floor_connected(map@, hub);
            assert forall|i: int, p: (int, int)|
                0 <= i < rooms@.len() && #[trigger] in_placed(rooms@[i], p) implies in_grid(
                map@,
                p.0,
                p.1,
            ) && cell(map@, p.0, p.1) == TileType::Floor by {
                assert(passable(carved, p) && cell(carved, p.0, p.1) == TileType::Floor);
                assert(cell(joined, p.0, p.1) == cell(joined, p.0, p.1));
                assert(in_grid(joined, p.0, p.1));
                assert(cell(map@, p.0, p.1) == cell(map@, p.0, p.1));
            }
            assert(placed_floored(map@, rooms@));
            assert(pairwise_disjoint(rooms@));
            assert(carved_in_steps(maps, tree + extra, rooms@));
            assert(maps.last() == joined);
            assert(rooms_grid(maps[0], rooms@));
            assert(built_from(map@, rooms@, tree + extra, build_config.should_place_doors));
            assert(extra.len() <= 1);
        }
        let dungeon = Dungeon { map };
        assert(laid_out(dungeon.map@, rooms@, tree, extra, build_config));
        assert(made_from_choices(dungeon.map@, build_config));
        Ok(dungeon)
    }
}

/// A corridor between the centers of two placed rooms leaves the border walls.
proof fn lemma_keep_border(
    before: Seq<Vec<TileType>>,
    after: Seq<Vec<TileType>>,
    rooms: Seq<Room>,
    i: int,
    j: int,
    width: int,
    height: int,
    min: int,
    max: int,
)
    requires
        doorless_grid(before, width, height),
        border_walls(before),
        rooms_placed(rooms, width, height, min, max),
        0 <= i < rooms.len(),
        0 <= j < rooms.len(),
        min > 0,
        exists|h: bool|
            #[trigger] corridor_carved(
                before,
                after,
                rooms[i].center_x as int,
                rooms[i].center_y as int,
                rooms[j].center_x as int,
                rooms[j].center_y as int,
                h,
            ),
    ensures
        border_walls(after),
{
    let a = rooms[i];
    let b = rooms[j];
    let h = choose|h: bool|
        #[trigger] corridor_carved(
            before,
            after,
            a.center_x as int,
            a.center_y as int,
            b.center_x as int,
            b.center_y as int,
            h,
        );
    assert(before[0]@.len() == width);
    assert forall|row: int| 0 <= row < before.len() implies (#[trigger] before[row])@.len() == before[0]@.len() by {
        assert(before[row]@.len() == width);
    }
    lemma_corridor_keeps_border(
        before,
        after,
        a.center_x as int,
        a.center_y as int,
        b.center_x as int,
        b.center_y as int,
        h,
    );
}

/// `maps` goes from its first grid to its last by carving, at step `k`, the
/// L-shaped corridor (with either bend) between the centers of the rooms
/// of `pairs[k]`.
#[verifier::opaque]
pub open spec fn carved_in_steps(
    maps: Seq<Seq<Vec<TileType>>>,
    pairs: Seq<(int, int)>,
    rooms: Seq<Room>,
) -> bool {
    &&& maps.len() == pairs.len() + 1
    &&& forall|k: int|
        0 <= k < pairs.len() ==> {
            &&& 0 <= (#[trigger] pairs[k]).0 < rooms.len()
            &&& 0 <= pairs[k].1 < rooms.len()
            &&& exists|h: bool|
                #[trigger] corridor_carved(
                    maps[k],
                    maps[k + 1],
                    rooms[pairs[k].0].center_x as int,
                    rooms[pairs[k].0].center_y as int,
                    rooms[pairs[k].1].center_x as int,
                    rooms[pairs[k].1].center_y as int,
                    h,
                )
        }
}

proof fn lemma_steps_start(m: Seq<Vec<TileType>>, rooms: Seq<Room>)
    ensures
        carved_in_steps(seq![m], Seq::empty(), rooms),
{
    reveal(carved_in_steps);
}

proof fn lemma_steps_push(
    maps: Seq<Seq<Vec<TileType>>>,
    pairs: Seq<(int, int)>,
    rooms: Seq<Room>,
    next: Seq<Vec<TileType>>,
    a: int,
    b: int,
)
    requires
        carved_in_steps(maps, pairs, rooms),
        0 <= a < rooms.len(),
        0 <= b < rooms.len(),
        exists|h: bool|
            #[trigger] corridor_carved(
                maps.last(),
                next,
                rooms[a].center_x as int,
                rooms[a].center_y as int,
                rooms[b].center_x as int,
                rooms[b].center_y as int,
                h,
            ),
    ensures
        carved_in_steps(maps.push(next), pairs.push((a, b)), rooms),
{
    reveal(carved_in_steps);
    let m2 = maps.push(next);
    let p2 = pairs.push((a, b));
    assert forall|k: int| 0 <= k < p2.len() implies {
        &&& 0 <= (#[trigger] p2[k]).0 < rooms.len()
        &&& 0 <= p2[k].1 < rooms.len()
        &&& exists|h: bool|
            #[trigger] corridor_carved(
                m2[k],
                m2[k + 1],
                rooms[p2[k].0].center_x as int,
                rooms[p2[k].0].center_y as int,
                rooms[p2[k].1].center_x as int,
                rooms[p2[k].1].center_y as int,
                h,
            )
    } by {
        if k < pairs.len() {
            assert(p2[k] == pairs[k]);
            assert(m2[k] == maps[k] && m2[k + 1] == maps[k + 1]);
        } else {
            assert(m2[k] == maps.last() && m2[k + 1] == next);
        }
    }
}

/// One more corridor, outside `tree`, recorded after `tree + extra`.
proof fn lemma_extra_step(
    maps: Seq<Seq<Vec<TileType>>>,
    tree: Seq<(int, int)>,
    extra: Seq<(int, int)>,
    rooms: Seq<Room>,
    next: Seq<Vec<TileType>>,
    i: int,
    j: int,
)
    requires
        carved_in_steps(maps, tree + extra, rooms),
        0 <= i < rooms.len(),
        0 <= j < rooms.len(),
        forall|t: int|
            0 <= t < tree.len() ==> !(#[trigger] tree[t] == (i, j) || tree[t] == (j, i)),
        forall|e: int| 0 <= e < extra.len() ==> !has_pair_spec(tree, (#[trigger] extra[e]).0, extra[e].1),
        exists|h: bool|
            #[trigger] corridor_carved(
                maps.last(),
                next,
                rooms[i].center_x as int,
                rooms[i].center_y as int,
                rooms[j].center_x as int,
                rooms[j].center_y as int,
                h,
            ),
    ensures
        carved_in_steps(maps.push(next), tree + extra.push((i, j)), rooms),
        maps.push(next)[0] == maps[0],
        forall|e: int|
            0 <= e < extra.push((i, j)).len() ==> !has_pair_spec(
                tree,
                (#[trigger] extra.push((i, j))[e]).0,
                extra.push((i, j))[e].1,
            ),
{
    reveal(carved_in_steps);
    assert(maps.len() > 0);
    lemma_steps_push(maps, tree + extra, rooms, next, i, j);
    assert((tree + extra).push((i, j)) =~= tree + extra.push((i, j)));
    assert forall|e: int| 0 <= e < extra.push((i, j)).len() implies !has_pair_spec(
        tree,
        (#[trigger] extra.push((i, j))[e]).0,
        extra.push((i, j))[e].1,
    ) by {
        if e < extra.len() {
            assert(extra.push((i, j))[e] == extra[e]);
        }
    }
}

/// `map` holds floor exactly on the cells of `rooms`, and wall elsewhere.
pub open spec fn rooms_grid(map: Seq<Vec<TileType>>, rooms: Seq<Room>) -> bool {
    forall|r: int, c: int|
        #![trigger cell(map, r, c)]
        in_grid(map, r, c) ==> cell(map, r, c) == if exists|i: int|
            0 <= i < rooms.len() && #[trigger] in_placed(rooms[i], (r, c)) {
            TileType::Floor
        } else {
            TileType::Wall
        }
}

/// `map` is a wall grid with `rooms` carved, then the corridors of `pairs`
/// carved in order, then, if `doors`, the door pass.
pub open spec fn built_from(
    map: Seq<Vec<TileType>>,
    rooms: Seq<Room>,
    pairs: Seq<(int, int)>,
    doors: bool,
) -> bool {
    exists|maps: Seq<Seq<Vec<TileType>>>|
        {
            &&& #[trigger] carved_in_steps(maps, pairs, rooms)
            &&& rooms_grid(maps[0], rooms)
            &&& if doors {
                &&& same_shape(maps.last(), map)
                &&& forall|r: int, c: int|
                    #![trigger cell(map, r, c)]
                    in_grid(maps.last(), r, c) ==> cell(map, r, c) == after_doors(
                        maps.last(),
                        r,
                        c,
                    )
            } else {
                map == maps.last()
            }
        }
}

/// `map` is what this strategy makes of `config` from these choices: the
/// placed `rooms` (at least one, disjoint, with a margin, all floor), then
/// the corridors of `tree`, `rooms.len() - 1` room pairs, then at most one
/// `extra` corridor whose pair is not in `tree`, then the door pass if asked
/// for.
pub open spec fn laid_out(
    map: Seq<Vec<TileType>>,
    rooms: Seq<Room>,
    tree: Seq<(int, int)>,
    extra: Seq<(int, int)>,
    config: DungeonBuildConfig,
) -> bool {
    &&& rooms.len() > 0
    &&& pairwise_disjoint(rooms)
    &&& rooms_placed(
        rooms,
        config.dungeon_size.width as int,
        config.dungeon_size.height as int,
        config.room_size.min_room_size as int,
        config.room_size.max_room_size as int,
    )
    &&& placed_floored(map, rooms)
    &&& tree.len() == rooms.len() - 1
    &&& extra.len() <= 1
    &&& forall|e: int| 0 <= e < extra.len() ==> !has_pair_spec(tree, (#[trigger] extra[e]).0, extra[e].1)
    &&& built_from(map, rooms, tree + extra, config.should_place_doors)
}

/// Some choice of rooms and corridors lays out `map` for `config`.
pub open spec fn made_from_choices(map: Seq<Vec<TileType>>, config: DungeonBuildConfig) -> bool {
    exists|rooms: Seq<Room>, tree: Seq<(int, int)>, extra: Seq<(int, int)>|
        #[trigger] laid_out(map, rooms, tree, extra, config)
}

/// `(a, b)` is among `pairs`, in either order.
pub open spec fn has_pair_spec(pairs: Seq<(int, int)>, a: int, b: int) -> bool {
    exists|k: int| 0 <= k < pairs.len() && (#[trigger] pairs[k] == (a, b) || pairs[k] == (b, a))
}

/// Every cell of every room of `rooms` is a floor cell of `map`.
pub open spec fn placed_floored(map: Seq<Vec<TileType>>, rooms: Seq<Room>) -> bool {
    forall|i: int, p: (int, int)|
        0 <= i < rooms.len() && #[trigger] in_placed(rooms[i], p) ==> in_grid(map, p.0, p.1)
            && cell(map, p.0, p.1) == TileType::Floor
}

/// Walks of `m0` carry over, and the cells new in `m1` reach room `i`.
proof fn lemma_reach_after_corridor(
    m0: Seq<Vec<TileType>>,
    m1: Seq<Vec<TileType>>,
    rooms: Seq<Room>,
    i: int,
)
    requires
        reaches_a_room(m0, rooms),
        grows(m0, m1),
        new_cells_reach(m0, m1, center_cell(rooms[i])),
        0 <= i < rooms.len(),
    ensures
        reaches_a_room(m1, rooms),
{
    reveal(reaches_a_room);
    assert forall|p: (int, int)| #[trigger] passable(m1, p) implies exists|c: int|
        0 <= c < rooms.len() && #[trigger] connected(m1, p, center_cell(rooms[c])) by {
        if passable(m0, p) {
            let c = choose|c: int| 0 <= c < rooms.len() && #[trigger] connected(m0, p, center_cell(rooms[c]));
            lemma_connected_grows(m0, m1, p, center_cell(rooms[c]));
        } else {
            assert(connected(m1, p, center_cell(rooms[i])));
        }
    }
}

/// Two forests with the same sets join the same rooms.
proof fn lemma_sets_joined_same(
    uf0: UnionFind,
    uf1: UnionFind,
    map: Seq<Vec<TileType>>,
    rooms: Seq<Room>,
)
    requires
        sets_joined(uf0, map, rooms),
        forall|a: int, b: int|
            0 <= a < rooms.len() && 0 <= b < rooms.len() ==> #[trigger] uf1.same_set(a, b)
                == uf0.same_set(a, b),
    ensures
        sets_joined(uf1, map, rooms),
{
    reveal(sets_joined);
    assert forall|a: int, b: int|
        0 <= a < rooms.len() && 0 <= b < rooms.len() && #[trigger] uf1.same_set(a, b) implies connected(
        map,
        center_cell(rooms[a]),
        center_cell(rooms[b]),
    ) by {
        assert(uf0.same_set(a, b));
    }
}

/// Merging the sets of `i` and `j` after joining their rooms' centers keeps
/// every set's rooms joined.
proof fn lemma_union_joins(
    before: UnionFind,
    after: UnionFind,
    m0: Seq<Vec<TileType>>,
    m1: Seq<Vec<TileType>>,
    rooms: Seq<Room>,
    i: int,
    j: int,
)
    requires
        before.len() == rooms.len(),
        after.len() == rooms.len(),
        0 <= i < rooms.len(),
        0 <= j < rooms.len(),
        sets_joined(before, m0, rooms),
        grows(m0, m1),
        connected(m1, center_cell(rooms[i]), center_cell(rooms[j])),
        forall|a: int, b: int|
            0 <= a < before.len() && 0 <= b < before.len() ==> (#[trigger] after.same_set(a, b)
                <==> before.same_set(a, b) || (before.same_set(a, i) && before.same_set(b, j)) || (
            before.same_set(a, j) && before.same_set(b, i))),
    ensures
        sets_joined(after, m1, rooms),
{
    reveal(sets_joined);
    let ci = center_cell(rooms[i]);
    let cj = center_cell(rooms[j]);
    lemma_connected_sym(m1, ci, cj);
    assert forall|a: int, b: int|
        0 <= a < rooms.len() && 0 <= b < rooms.len() && #[trigger] after.same_set(a, b) implies connected(
        m1,
        center_cell(rooms[a]),
        center_cell(rooms[b]),
    ) by {
        let ca = center_cell(rooms[a]);
        let cb = center_cell(rooms[b]);
        if before.same_set(a, b) {
            lemma_connected_grows(m0, m1, ca, cb);
        } else if before.same_set(a, i) && before.same_set(b, j) {
            lemma_connected_grows(m0, m1, ca, ci);
            assert(before.same_set(j, b));
            lemma_connected_grows(m0, m1, cj, cb);
            lemma_connected_trans(m1, ca, ci, cj);
            lemma_connected_trans(m1, ca, cj, cb);
        } else {
            lemma_connected_grows(m0, m1, ca, cj);
            assert(before.same_set(i, b));
            lemma_connected_grows(m0, m1, ci, cb);
            lemma_connected_trans(m1, ca, cj, ci);
            lemma_connected_trans(m1, ca, ci, cb);
        }
    }
}

} // verus!
