//! Operations on a tile grid shared by the generation strategies.
use crate::dungeon::{cell, has_no_doors, has_shape, TileType};
use vstd::prelude::*;

verus! {

/// `b` has as many rows as `a`, each as long as the row of `a` at the same index.
pub open spec fn same_shape(a: Seq<Vec<TileType>>, b: Seq<Vec<TileType>>) -> bool {
    &&& a.len() == b.len()
    &&& forall|row: int| 0 <= row < a.len() ==> (#[trigger] a[row])@.len() == b[row]@.len()
}

/// The grid has at least one row, and all its rows have the length of the first.
pub open spec fn is_rectangular(map: Seq<Vec<TileType>>) -> bool {
    &&& map.len() > 0
    &&& forall|row: int| 0 <= row < map.len() ==> (#[trigger] map[row])@.len() == map[0]@.len()
}

/// `(row, col)` is a cell of the grid.
pub open spec fn in_grid(map: Seq<Vec<TileType>>, row: int, col: int) -> bool {
    0 <= row < map.len() && 0 <= col < map[row]@.len()
}

/// `(row, col)` lies in the rectangle with corner `(x, y)` and size `w` by `h`.
pub open spec fn in_rect(x: int, y: int, w: int, h: int, row: int, col: int) -> bool {
    y <= row < y + h && x <= col < x + w
}

/// `(row, col)` lies on the L-shaped path between `(x1, y1)` and `(x2, y2)`:
/// along row `y1` then column `x2` when `horizontal_first`, else along column
/// `x1` then row `y2`.
pub open spec fn on_corridor(
    x1: int,
    y1: int,
    x2: int,
    y2: int,
    horizontal_first: bool,
    row: int,
    col: int,
) -> bool {
    let in_x = (x1 <= col <= x2) || (x2 <= col <= x1);
    let in_y = (y1 <= row <= y2) || (y2 <= row <= y1);
    if horizontal_first {
        (row == y1 && in_x) || (col == x2 && in_y)
    } else {
        (col == x1 && in_y) || (row == y2 && in_x)
    }
}

pub open spec fn is_floor(map: Seq<Vec<TileType>>, row: int, col: int) -> bool {
    cell(map, row, col) == TileType::Floor
}

/// How many of the four orthogonal neighbours of `(row, col)` are floor.
pub open spec fn floor_neighbours(map: Seq<Vec<TileType>>, row: int, col: int) -> int {
    (if is_floor(map, row - 1, col) { 1int } else { 0int }) + (if is_floor(map, row + 1, col) {
        1int
    } else {
        0int
    }) + (if is_floor(map, row, col - 1) { 1int } else { 0int }) + (if is_floor(
        map,
        row,
        col + 1,
    ) {
        1int
    } else {
        0int
    })
}

/// `(row, col)` is a cell of the grid off its outer border.
pub open spec fn is_interior(map: Seq<Vec<TileType>>, row: int, col: int) -> bool {
    1 <= row < map.len() - 1 && 1 <= col < map[0]@.len() - 1
}

/// What the door pass makes of a cell: an interior wall with at least two
/// floor neighbours becomes a door; every other cell stays as it is.
pub open spec fn after_doors(map: Seq<Vec<TileType>>, row: int, col: int) -> TileType {
    if is_interior(map, row, col) && cell(map, row, col) == TileType::Wall && floor_neighbours(
        map,
        row,
        col,
    ) >= 2 {
        TileType::Door
    } else {
        cell(map, row, col)
    }
}

/// `map` is a `width` by `height` grid without doors.
pub open spec fn doorless_grid(map: Seq<Vec<TileType>>, width: int, height: int) -> bool {
    has_shape(map, width, height) && has_no_doors(map)
}

/// `after` is `before` with the L-shaped corridor between `(x1, y1)` and
/// `(x2, y2)` carved: walls on the path become floor, all else is kept.
pub open spec fn corridor_carved(
    before: Seq<Vec<TileType>>,
    after: Seq<Vec<TileType>>,
    x1: int,
    y1: int,
    x2: int,
    y2: int,
    horizontal_first: bool,
) -> bool {
    &&& same_shape(before, after)
    &&& forall|r: int, c: int|
        #![trigger cell(after, r, c)]
        in_grid(before, r, c) ==> cell(after, r, c) == if on_corridor(
            x1,
            y1,
            x2,
            y2,
            horizontal_first,
            r,
            c,
        ) && cell(before, r, c) == TileType::Wall {
            TileType::Floor
        } else {
            cell(before, r, c)
        }
}

/// `after` has the shape of `before`, and its only changes are walls made floor.
pub open spec fn only_walls_carved(before: Seq<Vec<TileType>>, after: Seq<Vec<TileType>>) -> bool {
    &&& same_shape(before, after)
    &&& forall|r: int, c: int|
        #![trigger cell(after, r, c)]
        in_grid(before, r, c) ==> cell(after, r, c) == cell(before, r, c) || (cell(before, r, c)
            == TileType::Wall && cell(after, r, c) == TileType::Floor)
}

pub proof fn lemma_only_walls_carved_trans(
    a: Seq<Vec<TileType>>,
    b: Seq<Vec<TileType>>,
    c: Seq<Vec<TileType>>,
)
    requires
        only_walls_carved(a, b),
        only_walls_carved(b, c),
    ensures
        only_walls_carved(a, c),
{
    assert forall|r: int, col: int| #![trigger cell(c, r, col)] in_grid(a, r, col) implies cell(c, r, col)
        == cell(a, r, col) || (cell(a, r, col) == TileType::Wall && cell(c, r, col)
        == TileType::Floor) by {
        assert(in_grid(b, r, col));
        assert(cell(b, r, col) == cell(b, r, col));
    }
    assert forall|row: int| 0 <= row < a.len() implies (#[trigger] a[row])@.len() == c[row]@.len() by {
        assert(b[row]@.len() == a[row]@.len());
    }
}

pub proof fn lemma_only_walls_carved_refl(a: Seq<Vec<TileType>>)
    ensures
        only_walls_carved(a, a),
{
}

/// A corridor changes walls into floor and nothing else.
pub proof fn lemma_corridor_only_walls(
    before: Seq<Vec<TileType>>,
    after: Seq<Vec<TileType>>,
    x1: int,
    y1: int,
    x2: int,
    y2: int,
    horizontal_first: bool,
)
    requires
        corridor_carved(before, after, x1, y1, x2, y2, horizontal_first),
    ensures
        only_walls_carved(before, after),
{
    assert forall|r: int, c: int| #![trigger cell(after, r, c)] in_grid(before, r, c) implies cell(after, r, c)
        == cell(before, r, c) || (cell(before, r, c) == TileType::Wall && cell(after, r, c)
        == TileType::Floor) by {
        assert(cell(after, r, c) == cell(after, r, c));
    }
}

/// The door rule holds of `map`: every door is an interior cell with at least
/// two floor neighbours, and no interior wall has two.
pub open spec fn doors_placed(map: Seq<Vec<TileType>>) -> bool {
    forall|r: int, c: int|
        #![trigger cell(map, r, c)]
        in_grid(map, r, c) ==> (cell(map, r, c) == TileType::Door ==> is_interior(map, r, c)
            && floor_neighbours(map, r, c) >= 2) && (is_interior(map, r, c) && cell(map, r, c)
            == TileType::Wall ==> floor_neighbours(map, r, c) < 2)
}

/// After the door pass over a grid without doors, the door rule holds.
pub proof fn lemma_doors_placed(before: Seq<Vec<TileType>>, after: Seq<Vec<TileType>>)
    requires
        is_rectangular(before),
        same_shape(before, after),
        has_no_doors(before),
        forall|r: int, c: int|
            #![trigger cell(after, r, c)]
            in_grid(before, r, c) ==> cell(after, r, c) == after_doors(before, r, c),
    ensures
        doors_placed(after),
{
    assert forall|r: int, c: int| #![trigger cell(after, r, c)] in_grid(after, r, c) implies (cell(
        after,
        r,
        c,
    ) == TileType::Door ==> is_interior(after, r, c) && floor_neighbours(after, r, c) >= 2) && (
    is_interior(after, r, c) && cell(after, r, c) == TileType::Wall ==> floor_neighbours(
        after,
        r,
        c,
    ) < 2) by {
        assert(in_grid(before, r, c));
        assert(before[0]@.len() == after[0]@.len());
        assert(cell(after, r, c) == after_doors(before, r, c));
        if is_interior(before, r, c) {
            assert(before[r - 1]@.len() == before[0]@.len());
            assert(before[r + 1]@.len() == before[0]@.len());
            assert(before[r]@.len() == before[0]@.len());
            assert(cell(after, r - 1, c) == after_doors(before, r - 1, c));
            assert(cell(after, r + 1, c) == after_doors(before, r + 1, c));
            assert(cell(after, r, c - 1) == after_doors(before, r, c - 1));
            assert(cell(after, r, c + 1) == after_doors(before, r, c + 1));
            assert(floor_neighbours(after, r, c) == floor_neighbours(before, r, c));
        }
    }
}

/// Every cell on the outer border of `map` is a wall.
#[verifier::opaque]
pub open spec fn border_walls(map: Seq<Vec<TileType>>) -> bool {
    forall|r: int, c: int|
        #![trigger cell(map, r, c)]
        in_grid(map, r, c) && !is_interior(map, r, c) ==> cell(map, r, c) == TileType::Wall
}

/// A corridor between two interior cells leaves the border as it was.
pub proof fn lemma_corridor_keeps_border(
    before: Seq<Vec<TileType>>,
    after: Seq<Vec<TileType>>,
    x1: int,
    y1: int,
    x2: int,
    y2: int,
    horizontal_first: bool,
)
    requires
        corridor_carved(before, after, x1, y1, x2, y2, horizontal_first),
        is_rectangular(before),
        border_walls(before),
        is_interior(before, y1, x1),
        is_interior(before, y2, x2),
    ensures
        border_walls(after),
{
    reveal(border_walls);
    assert forall|r: int, c: int| #![trigger cell(after, r, c)] in_grid(after, r, c) && !is_interior(
        after,
        r,
        c,
    ) implies cell(after, r, c) == TileType::Wall by {
        assert(in_grid(before, r, c));
        assert(before[0]@.len() == after[0]@.len());
        assert(cell(after, r, c) == cell(after, r, c));
    }
}

/// The door pass leaves the border as it was.
pub proof fn lemma_doors_keep_border(before: Seq<Vec<TileType>>, after: Seq<Vec<TileType>>)
    requires
        same_shape(before, after),
        before.len() > 0,
        border_walls(before),
        forall|r: int, c: int|
            #![trigger cell(after, r, c)]
            in_grid(before, r, c) ==> cell(after, r, c) == after_doors(before, r, c),
    ensures
        border_walls(after),
{
    reveal(border_walls);
    assert forall|r: int, c: int| #![trigger cell(after, r, c)] in_grid(after, r, c) && !is_interior(
        after,
        r,
        c,
    ) implies cell(after, r, c) == TileType::Wall by {
        assert(in_grid(before, r, c));
        assert(before[0]@.len() == after[0]@.len());
        assert(cell(after, r, c) == after_doors(before, r, c));
    }
}

/// A cell one can walk on: floor or door.
pub open spec fn passable(map: Seq<Vec<TileType>>, p: (int, int)) -> bool {
    in_grid(map, p.0, p.1) && (cell(map, p.0, p.1) == TileType::Floor || cell(map, p.0, p.1)
        == TileType::Door)
}

/// `a` and `b` (row, column) are orthogonal neighbours.
pub open spec fn adjacent(a: (int, int), b: (int, int)) -> bool {
    ||| a.0 == b.0 && (a.1 == b.1 + 1 || b.1 == a.1 + 1)
    ||| a.1 == b.1 && (a.0 == b.0 + 1 || b.0 == a.0 + 1)
}

/// `w` is a non-empty sequence of passable cells, each a neighbour of the next.
pub open spec fn is_walk(map: Seq<Vec<TileType>>, w: Seq<(int, int)>) -> bool {
    &&& w.len() > 0
    &&& forall|i: int| 0 <= i < w.len() ==> passable(map, #[trigger] w[i])
    &&& forall|i: int| 0 <= i < w.len() - 1 ==> adjacent(#[trigger] w[i], w[i + 1])
}

/// A walk leads from `a` to `b`.
pub open spec fn connected(map: Seq<Vec<TileType>>, a: (int, int), b: (int, int)) -> bool {
    exists|w: Seq<(int, int)>| #[trigger] is_walk(map, w) && w[0] == a && w.last() == b
}

/// Every two floor cells are joined by a walk over floor and door cells.
pub open spec fn floor_connected(map: Seq<Vec<TileType>>) -> bool {
    forall|a: (int, int), b: (int, int)|
        is_floor(map, a.0, a.1) && in_grid(map, a.0, a.1) && #[trigger] is_floor(map, b.0, b.1)
            && in_grid(map, b.0, b.1) ==> #[trigger] connected(map, a, b)
}

/// Every passable cell of `map` is joined to `hub` by a walk.
pub open spec fn all_reach(map: Seq<Vec<TileType>>, hub: (int, int)) -> bool {
    forall|p: (int, int)| #[trigger] passable(map, p) ==> connected(map, p, hub)
}

/// `b` has the shape of `a`, and every cell passable in `a` is passable in `b`.
pub open spec fn grows(a: Seq<Vec<TileType>>, b: Seq<Vec<TileType>>) -> bool {
    &&& same_shape(a, b)
    &&& forall|p: (int, int)| #[trigger] passable(a, p) ==> passable(b, p)
}

/// Every cell passable in `after` but not in `before` is joined to `hub`.
pub open spec fn new_cells_reach(
    before: Seq<Vec<TileType>>,
    after: Seq<Vec<TileType>>,
    hub: (int, int),
) -> bool {
    forall|p: (int, int)|
        #[trigger] passable(after, p) && !passable(before, p) ==> connected(after, p, hub)
}

pub proof fn lemma_connected_refl(map: Seq<Vec<TileType>>, a: (int, int))
    requires
        passable(map, a),
    ensures
        connected(map, a, a),
{
    let w = seq![a];
    assert(is_walk(map, w));
}

pub proof fn lemma_connected_trans(
    map: Seq<Vec<TileType>>,
    a: (int, int),
    b: (int, int),
    c: (int, int),
)
    requires
        connected(map, a, b),
        connected(map, b, c),
    ensures
        connected(map, a, c),
{
    let w1 = choose|w: Seq<(int, int)>| #[trigger] is_walk(map, w) && w[0] == a && w.last() == b;
    let w2 = choose|w: Seq<(int, int)>| #[trigger] is_walk(map, w) && w[0] == b && w.last() == c;
    let w = w1 + w2.subrange(1, w2.len() as int);
    assert forall|i: int| 0 <= i < w.len() implies passable(map, #[trigger] w[i]) by {
        if i < w1.len() {
            assert(w[i] == w1[i]);
        } else {
            assert(w[i] == w2[i - w1.len() + 1]);
        }
    }
    assert forall|i: int| 0 <= i < w.len() - 1 implies adjacent(#[trigger] w[i], w[i + 1]) by {
        if i < w1.len() - 1 {
            assert(w[i] == w1[i] && w[i + 1] == w1[i + 1]);
        } else if i == w1.len() - 1 {
            assert(w[i] == w1[i] && w[i + 1] == w2[1]);
            assert(w2[0] == w1.last());
            assert(adjacent(w2[0], w2[1]));
        } else {
            assert(w[i] == w2[i - w1.len() + 1] && w[i + 1] == w2[i - w1.len() + 2]);
            assert(adjacent(w2[i - w1.len() + 1], w2[i - w1.len() + 2]));
        }
    }
    assert(is_walk(map, w));
    if w2.len() == 1 {
        assert(w.last() == w1.last());
    } else {
        assert(w.last() == w2.last());
    }
}

pub proof fn lemma_connected_sym(map: Seq<Vec<TileType>>, a: (int, int), b: (int, int))
    requires
        connected(map, a, b),
    ensures
        connected(map, b, a),
{
    let w1 = choose|w: Seq<(int, int)>| #[trigger] is_walk(map, w) && w[0] == a && w.last() == b;
    let n = w1.len() as int;
    let w = Seq::new(n as nat, |i: int| w1[n - 1 - i]);
    assert forall|i: int| 0 <= i < w.len() implies passable(map, #[trigger] w[i]) by {
        assert(w[i] == w1[n - 1 - i]);
    }
    assert forall|i: int| 0 <= i < w.len() - 1 implies adjacent(#[trigger] w[i], w[i + 1]) by {
        assert(adjacent(w1[n - 2 - i], w1[n - 1 - i]));
    }
    assert(is_walk(map, w));
}

/// A walk stays a walk in a grid where at least the same cells are passable.
pub proof fn lemma_connected_grows(
    a: Seq<Vec<TileType>>,
    b: Seq<Vec<TileType>>,
    p: (int, int),
    q: (int, int),
)
    requires
        grows(a, b),
        connected(a, p, q),
    ensures
        connected(b, p, q),
{
    let w = choose|w: Seq<(int, int)>| #[trigger] is_walk(a, w) && w[0] == p && w.last() == q;
    assert forall|i: int| 0 <= i < w.len() implies passable(b, #[trigger] w[i]) by {
        assert(passable(a, w[i]));
    }
    assert(is_walk(b, w));
}

/// Passable cells along row `row` from column `c1` to `c2` make a walk.
pub proof fn lemma_row_walk(map: Seq<Vec<TileType>>, row: int, c1: int, c2: int)
    requires
        c1 <= c2,
        forall|c: int| c1 <= c <= c2 ==> #[trigger] passable(map, (row, c)),
    ensures
        connected(map, (row, c1), (row, c2)),
{
    let w = Seq::new((c2 - c1 + 1) as nat, |i: int| (row, c1 + i));
    assert forall|i: int| 0 <= i < w.len() implies passable(map, #[trigger] w[i]) by {
        assert(passable(map, (row, c1 + i)));
    }
    assert(is_walk(map, w));
}

/// Passable cells along column `col` from row `r1` to `r2` make a walk.
pub proof fn lemma_column_walk(map: Seq<Vec<TileType>>, col: int, r1: int, r2: int)
    requires
        r1 <= r2,
        forall|r: int| r1 <= r <= r2 ==> #[trigger] passable(map, (r, col)),
    ensures
        connected(map, (r1, col), (r2, col)),
{
    let w = Seq::new((r2 - r1 + 1) as nat, |i: int| (r1 + i, col));
    assert forall|i: int| 0 <= i < w.len() implies passable(map, #[trigger] w[i]) by {
        assert(passable(map, (r1 + i, col)));
    }
    assert(is_walk(map, w));
}

/// Any two cells of a rectangle of passable cells are joined.
pub proof fn lemma_rect_connected(
    map: Seq<Vec<TileType>>,
    x: int,
    y: int,
    w: int,
    h: int,
    a: (int, int),
    b: (int, int),
)
    requires
        forall|p: (int, int)| in_rect(x, y, w, h, p.0, p.1) ==> #[trigger] passable(map, p),
        in_rect(x, y, w, h, a.0, a.1),
        in_rect(x, y, w, h, b.0, b.1),
    ensures
        connected(map, a, b),
{
    let corner = (a.0, b.1);
    if a.1 <= b.1 {
        lemma_row_walk(map, a.0, a.1, b.1);
    } else {
        lemma_row_walk(map, a.0, b.1, a.1);
        lemma_connected_sym(map, (a.0, b.1), (a.0, a.1));
    }
    if a.0 <= b.0 {
        lemma_column_walk(map, b.1, a.0, b.0);
    } else {
        lemma_column_walk(map, b.1, b.0, a.0);
        lemma_connected_sym(map, (b.0, b.1), (a.0, b.1));
    }
    lemma_connected_trans(map, a, corner, b);
}

/// The two ends of a carved corridor are joined, and every cell on it is
/// joined to its first end.
pub proof fn lemma_corridor_connects(
    map: Seq<Vec<TileType>>,
    x1: int,
    y1: int,
    x2: int,
    y2: int,
    horizontal_first: bool,
)
    requires
        forall|p: (int, int)|
            on_corridor(x1, y1, x2, y2, horizontal_first, p.0, p.1) ==> #[trigger] passable(map, p),
    ensures
        connected(map, (y1, x1), (y2, x2)),
        forall|p: (int, int)|
            on_corridor(x1, y1, x2, y2, horizontal_first, p.0, p.1) ==> #[trigger] connected(
                map,
                p,
                (y1, x1),
            ),
{
    let bend = if horizontal_first { (y1, x2) } else { (y2, x1) };
    // the first leg: from the first end to the bend, both ways
    if horizontal_first {
        if x1 <= x2 {
            lemma_row_walk(map, y1, x1, x2);
            lemma_connected_sym(map, (y1, x1), (y1, x2));
        } else {
            lemma_row_walk(map, y1, x2, x1);
            lemma_connected_sym(map, (y1, x2), (y1, x1));
        }
    } else {
        if y1 <= y2 {
            lemma_column_walk(map, x1, y1, y2);
            lemma_connected_sym(map, (y1, x1), (y2, x1));
        } else {
            lemma_column_walk(map, x1, y2, y1);
            lemma_connected_sym(map, (y2, x1), (y1, x1));
        }
    }
    // the second leg: from the bend to the second end, both ways
    if horizontal_first {
        if y1 <= y2 {
            lemma_column_walk(map, x2, y1, y2);
            lemma_connected_sym(map, (y1, x2), (y2, x2));
        } else {
            lemma_column_walk(map, x2, y2, y1);
            lemma_connected_sym(map, (y2, x2), (y1, x2));
        }
    } else {
        if x1 <= x2 {
            lemma_row_walk(map, y2, x1, x2);
            lemma_connected_sym(map, (y2, x1), (y2, x2));
        } else {
            lemma_row_walk(map, y2, x2, x1);
            lemma_connected_sym(map, (y2, x2), (y2, x1));
        }
    }
    lemma_connected_trans(map, (y1, x1), bend, (y2, x2));
    assert forall|p: (int, int)| on_corridor(x1, y1, x2, y2, horizontal_first, p.0, p.1)
        implies #[trigger] connected(map, p, (y1, x1)) by {
        let on_first_leg = if horizontal_first { p.0 == y1 } else { p.1 == x1 };
        if on_first_leg {
            // p lies between the first end and the bend
            if horizontal_first {
                if x1 <= p.1 {
                    lemma_row_walk(map, y1, x1, p.1);
                    lemma_connected_sym(map, (y1, x1), p);
                } else {
                    lemma_row_walk(map, y1, p.1, x1);
                }
            } else {
                if y1 <= p.0 {
                    lemma_column_walk(map, x1, y1, p.0);
                    lemma_connected_sym(map, (y1, x1), p);
                } else {
                    lemma_column_walk(map, x1, p.0, y1);
                }
            }
        } else {
            // p lies between the bend and the second end
            if horizontal_first {
                if y1 <= p.0 {
                    lemma_column_walk(map, x2, y1, p.0);
                    lemma_connected_sym(map, bend, p);
                } else {
                    lemma_column_walk(map, x2, p.0, y1);
                }
            } else {
                if x1 <= p.1 {
                    lemma_row_walk(map, y2, x1, p.1);
                    lemma_connected_sym(map, bend, p);
                } else {
                    lemma_row_walk(map, y2, p.1, x1);
                }
            }
            lemma_connected_trans(map, p, bend, (y1, x1));
        }
    }
}

/// After the door pass, every passable cell still reaches `hub` when every
/// passable cell did before: a new door has a floor neighbour.
pub proof fn lemma_doors_keep_reach(
    before: Seq<Vec<TileType>>,
    after: Seq<Vec<TileType>>,
    hub: (int, int),
)
    requires
        is_rectangular(before),
        same_shape(before, after),
        grows(before, after),
        forall|r: int, c: int|
            #![trigger cell(after, r, c)]
            in_grid(before, r, c) ==> cell(after, r, c) == after_doors(before, r, c),
        all_reach(before, hub),
    ensures
        all_reach(after, hub),
{
    assert forall|p: (int, int)| #[trigger] passable(after, p) implies connected(after, p, hub) by {
        if passable(before, p) {
            lemma_connected_grows(before, after, p, hub);
        } else {
            assert(cell(after, p.0, p.1) == after_doors(before, p.0, p.1));
            let (r, c) = p;
            assert(is_interior(before, r, c));
            assert(before[r - 1]@.len() == before[0]@.len());
            assert(before[r + 1]@.len() == before[0]@.len());
            assert(before[r]@.len() == before[0]@.len());
            let q = if is_floor(before, r - 1, c) {
                (r - 1, c)
            } else if is_floor(before, r + 1, c) {
                (r + 1, c)
            } else if is_floor(before, r, c - 1) {
                (r, c - 1)
            } else {
                (r, c + 1)
            };
            assert(passable(before, q));
            lemma_connected_grows(before, after, q, hub);
            let w = seq![p, q];
            assert(is_walk(after, w));
            lemma_connected_trans(after, p, q, hub);
        }
    }
}

/// When every passable cell reaches one hub, every two floor cells are joined.
pub proof fn lemma_floor_connected(map: Seq<Vec<TileType>>, hub: (int, int))
    requires
        all_reach(map, hub),
    ensures
        floor_connected(map),
{
    assert forall|a: (int, int), b: (int, int)|
        is_floor(map, a.0, a.1) && in_grid(map, a.0, a.1) && #[trigger] is_floor(map, b.0, b.1)
            && in_grid(map, b.0, b.1) implies #[trigger] connected(map, a, b) by {
        assert(passable(map, a));
        assert(passable(map, b));
        lemma_connected_sym(map, b, hub);
        lemma_connected_trans(map, a, hub, b);
    }
}

/// A grid of `height` rows of `width` walls.
pub fn new_wall_grid(width: usize, height: usize) -> (map: Vec<Vec<TileType>>)
    ensures
        has_shape(map@, width as int, height as int),
        forall|row: int, col: int|
            0 <= row < height && 0 <= col < width ==> cell(map@, row, col) == TileType::Wall,
{
    let mut map: Vec<Vec<TileType>> = Vec::new();
    for row in 0..height
        invariant
            map@.len() == row,
            forall|r: int| 0 <= r < row ==> (#[trigger] map@[r])@.len() == width,
            forall|r: int, c: int|
                0 <= r < row && 0 <= c < width ==> cell(map@, r, c) == TileType::Wall,
    {
        let mut line: Vec<TileType> = Vec::new();
        for col in 0..width
            invariant
                line@.len() == col,
                forall|c: int| 0 <= c < col ==> line@[c] == TileType::Wall,
                map@.len() == row,
                forall|r: int| 0 <= r < row ==> (#[trigger] map@[r])@.len() == width,
                forall|r: int, c: int|
                    0 <= r < row && 0 <= c < width ==> cell(map@, r, c) == TileType::Wall,
        {
            line.push(TileType::Wall);
        }
        let ghost prev = map@;
        let ghost added = line;
        map.push(line);
        assert(map@[row as int] == added);
        assert forall|r: int, c: int| 0 <= r <= row && 0 <= c < width implies cell(map@, r, c)
            == TileType::Wall by {
            if r < row {
                assert(map@[r] == prev[r]);
                assert(cell(prev, r, c) == TileType::Wall);
            } else {
                assert(added@[c] == TileType::Wall);
            }
        }
    }
    map
}

/// Makes floor of every cell of the rectangle with corner `(x, y)` and size
/// `w` by `h`; leaves every other cell as it was.
pub fn carve_rect(map: &mut Vec<Vec<TileType>>, x: usize, y: usize, w: usize, h: usize)
    requires
        y + h <= old(map)@.len(),
        forall|row: int| y <= row < y + h ==> x + w <= (#[trigger] old(map)@[row])@.len(),
    ensures
        same_shape(old(map)@, final(map)@),
        grows(old(map)@, final(map)@),
        forall|p: (int, int)|
            in_rect(x as int, y as int, w as int, h as int, p.0, p.1) ==> #[trigger] passable(
                final(map)@,
                p,
            ),
        forall|row: int, col: int|
            #![trigger cell(final(map)@, row, col)]
            in_grid(old(map)@, row, col) ==> cell(final(map)@, row, col) == if in_rect(
                x as int,
                y as int,
                w as int,
                h as int,
                row,
                col,
            ) {
                TileType::Floor
            } else {
                cell(old(map)@, row, col)
            },
{
    let ghost start = map@;
    let _rows = map.len();
    proof {
        assert forall|row: int| y <= row < y + h implies x + w <= (#[trigger] start[row])@.len() by {}
    }
    for row in y..y + h
        invariant
            y + h <= start.len(),
            forall|r: int| y <= r < y + h ==> x + w <= (#[trigger] start[r])@.len(),
            same_shape(start, map@),
            forall|r: int, c: int|
                #![trigger cell(map@, r, c)]
                in_grid(start, r, c) ==> cell(map@, r, c) == if in_rect(
                    x as int,
                    y as int,
                    w as int,
                    (row - y) as int,
                    r,
                    c,
                ) {
                    TileType::Floor
                } else {
                    cell(start, r, c)
                },
    {
        let ghost before = map@;
        assert(x + w <= start[row as int]@.len());
        assert(map@[row as int]@.len() == start[row as int]@.len());
        let _cols = map[row].len();
        for col in x..x + w
            invariant
                y <= row < y + h,
                y + h <= start.len(),
                x + w <= start[row as int]@.len(),
                same_shape(start, map@),
                forall|r: int, c: int|
                    #![trigger cell(before, r, c)]
                    in_grid(start, r, c) ==> cell(before, r, c) == if in_rect(
                        x as int,
                        y as int,
                        w as int,
                        (row - y) as int,
                        r,
                        c,
                    ) {
                        TileType::Floor
                    } else {
                        cell(start, r, c)
                    },
                forall|r: int, c: int|
                    #![trigger cell(map@, r, c)]
                    in_grid(start, r, c) ==> cell(map@, r, c) == if r == row && x <= c < col {
                        TileType::Floor
                    } else {
                        cell(before, r, c)
                    },
        {
            let ghost prev = map@;
            map[row][col] = TileType::Floor;
            assert(map@[row as int]@ == prev[row as int]@.update(col as int, TileType::Floor));
            assert forall|r: int, c: int| #![trigger cell(map@, r, c)] in_grid(start, r, c) implies cell(map@, r, c) == if r == row && x <= c < col + 1 {
                TileType::Floor
            } else {
                cell(before, r, c)
            } by {
                if r != row {
                    assert(map@[r] == prev[r]);
                }
                if r != row || c != col {
                    assert(cell(map@, r, c) == cell(prev, r, c));
                }
            }
        }
    }
    proof {
        assert forall|p: (int, int)| #[trigger] passable(start, p) implies passable(map@, p) by {
            assert(cell(map@, p.0, p.1) == cell(map@, p.0, p.1));
        }
        assert forall|p: (int, int)| in_rect(x as int, y as int, w as int, h as int, p.0, p.1)
            implies #[trigger] passable(map@, p) by {
            assert(start[p.0]@.len() >= x + w);
            assert(cell(map@, p.0, p.1) == cell(map@, p.0, p.1));
        }
    }
}

/// Makes floor of the walls of row `row` between columns `a` and `b`
/// (inclusive, in either order); leaves every other cell as it was.
fn carve_row_span(map: &mut Vec<Vec<TileType>>, row: usize, a: usize, b: usize)
    requires
        row < old(map)@.len(),
        a < old(map)@[row as int]@.len(),
        b < old(map)@[row as int]@.len(),
    ensures
        same_shape(old(map)@, final(map)@),
        forall|r: int, c: int|
            #![trigger cell(final(map)@, r, c)]
            in_grid(old(map)@, r, c) ==> cell(final(map)@, r, c) == if r == row && ((a <= c
                <= b) || (b <= c <= a)) && cell(old(map)@, r, c) == TileType::Wall {
                TileType::Floor
            } else {
                cell(old(map)@, r, c)
            },
{
    let ghost start = map@;
    let lo = if a <= b { a } else { b };
    let hi = if a <= b { b } else { a };
    let _cols = map[row].len();
    for col in lo..hi + 1
        invariant
            lo <= hi,
            lo == a || lo == b,
            hi == a || hi == b,
            lo <= a && lo <= b && a <= hi && b <= hi,
            row < start.len(),
            hi < start[row as int]@.len(),
            same_shape(start, map@),
            forall|r: int, c: int|
                #![trigger cell(map@, r, c)]
                in_grid(start, r, c) ==> cell(map@, r, c) == if r == row && lo <= c < col
                    && cell(start, r, c) == TileType::Wall {
                    TileType::Floor
                } else {
                    cell(start, r, c)
                },
    {
        if map[row][col] == TileType::Wall {
            map[row][col] = TileType::Floor;
        }
    }
}

/// Makes floor of the walls of column `col` between rows `a` and `b`
/// (inclusive, in either order); leaves every other cell as it was.
fn carve_column_span(map: &mut Vec<Vec<TileType>>, col: usize, a: usize, b: usize)
    requires
        is_rectangular(old(map)@),
        col < old(map)@[0]@.len(),
        a < old(map)@.len(),
        b < old(map)@.len(),
    ensures
        same_shape(old(map)@, final(map)@),
        forall|r: int, c: int|
            #![trigger cell(final(map)@, r, c)]
            in_grid(old(map)@, r, c) ==> cell(final(map)@, r, c) == if c == col && ((a <= r
                <= b) || (b <= r <= a)) && cell(old(map)@, r, c) == TileType::Wall {
                TileType::Floor
            } else {
                cell(old(map)@, r, c)
            },
{
    let ghost start = map@;
    let lo = if a <= b { a } else { b };
    let hi = if a <= b { b } else { a };
    let _rows = map.len();
    for row in lo..hi + 1
        invariant
            lo <= hi,
            lo <= a && lo <= b && a <= hi && b <= hi,
            lo == a || lo == b,
            hi == a || hi == b,
            is_rectangular(start),
            hi < start.len(),
            col < start[0]@.len(),
            same_shape(start, map@),
            forall|r: int, c: int|
                #![trigger cell(map@, r, c)]
                in_grid(start, r, c) ==> cell(map@, r, c) == if c == col && lo <= r < row
                    && cell(start, r, c) == TileType::Wall {
                    TileType::Floor
                } else {
                    cell(start, r, c)
                },
    {
        assert(start[row as int]@.len() == start[0]@.len());
        if map[row][col] == TileType::Wall {
            map[row][col] = TileType::Floor;
        }
    }
}

/// Carves the L-shaped corridor between `(x1, y1)` and `(x2, y2)` (column,
/// row): walls on the path become floor, every other cell stays as it was.
pub fn carve_corridor(
    map: &mut Vec<Vec<TileType>>,
    x1: usize,
    y1: usize,
    x2: usize,
    y2: usize,
    horizontal_first: bool,
)
    requires
        is_rectangular(old(map)@),
        y1 < old(map)@.len(),
        y2 < old(map)@.len(),
        x1 < old(map)@[0]@.len(),
        x2 < old(map)@[0]@.len(),
    ensures
        same_shape(old(map)@, final(map)@),
        forall|r: int, c: int|
            #![trigger cell(final(map)@, r, c)]
            in_grid(old(map)@, r, c) ==> cell(final(map)@, r, c) == if on_corridor(
                x1 as int,
                y1 as int,
                x2 as int,
                y2 as int,
                horizontal_first,
                r,
                c,
            ) && cell(old(map)@, r, c) == TileType::Wall {
                TileType::Floor
            } else {
                cell(old(map)@, r, c)
            },
        grows(old(map)@, final(map)@),
        forall|p: (int, int)|
            on_corridor(x1 as int, y1 as int, x2 as int, y2 as int, horizontal_first, p.0, p.1)
                ==> #[trigger] passable(final(map)@, p),
{
    let ghost start = map@;
    assert(start[y1 as int]@.len() == start[0]@.len());
    assert(start[y2 as int]@.len() == start[0]@.len());
    if horizontal_first {
        carve_row_span(map, y1, x1, x2);
        let ghost mid = map@;
        assert(is_rectangular(mid)) by {
            assert forall|row: int| 0 <= row < mid.len() implies (#[trigger] mid[row])@.len()
                == mid[0]@.len() by {
                assert(start[row]@.len() == start[0]@.len());
            }
        }
        carve_column_span(map, x2, y1, y2);
        assert forall|r: int, c: int| in_grid(start, r, c) implies #[trigger] cell(map@, r, c)
            == (if on_corridor(x1 as int, y1 as int, x2 as int, y2 as int, true, r, c) && cell(
            start,
            r,
            c,
        ) == TileType::Wall {
            TileType::Floor
        } else {
            cell(start, r, c)
        }) by {
            assert(cell(mid, r, c) == cell(mid, r, c));
        }
    } else {
        carve_column_span(map, x1, y1, y2);
        let ghost mid = map@;
        assert(is_rectangular(mid)) by {
            assert forall|row: int| 0 <= row < mid.len() implies (#[trigger] mid[row])@.len()
                == mid[0]@.len() by {
                assert(start[row]@.len() == start[0]@.len());
            }
        }
        assert(mid[y2 as int]@.len() == start[0]@.len());
        carve_row_span(map, y2, x1, x2);
        assert forall|r: int, c: int| in_grid(start, r, c) implies #[trigger] cell(map@, r, c)
            == (if on_corridor(x1 as int, y1 as int, x2 as int, y2 as int, false, r, c) && cell(
            start,
            r,
            c,
        ) == TileType::Wall {
            TileType::Floor
        } else {
            cell(start, r, c)
        }) by {
            assert(cell(mid, r, c) == cell(mid, r, c));
        }
    }
    proof {
        assert forall|p: (int, int)| #[trigger] passable(start, p) implies passable(map@, p) by {
            assert(cell(map@, p.0, p.1) == cell(map@, p.0, p.1));
        }
        assert forall|p: (int, int)|
            on_corridor(x1 as int, y1 as int, x2 as int, y2 as int, horizontal_first, p.0, p.1)
            implies #[trigger] passable(map@, p) by {
            assert(start[p.0]@.len() == start[0]@.len());
            assert(cell(map@, p.0, p.1) == cell(map@, p.0, p.1));
        }
    }
}

/// The door pass: every interior wall with at least two floor neighbours
/// becomes a door. Floors never change, so the count is the same whether
/// taken before or during the pass.
pub fn place_doors(map: &mut Vec<Vec<TileType>>)
    requires
        is_rectangular(old(map)@),
    ensures
        same_shape(old(map)@, final(map)@),
        forall|r: int, c: int|
            #![trigger cell(final(map)@, r, c)]
            in_grid(old(map)@, r, c) ==> cell(final(map)@, r, c) == after_doors(old(map)@, r, c),
        grows(old(map)@, final(map)@),
        has_no_doors(old(map)@) ==> doors_placed(final(map)@),
{
    let ghost start = map@;
    let height = map.len();
    let width = map[0].len();
    if height < 3 || width < 3 {
        assert forall|r: int, c: int| in_grid(start, r, c) implies #[trigger] cell(map@, r, c)
            == after_doors(start, r, c) by {}
        proof {
            if has_no_doors(start) {
                lemma_doors_placed(start, map@);
            }
        }
        return;
    }
    for y in 1..height - 1
        invariant
            height == start.len(),
            width == start[0]@.len(),
            height >= 3,
            width >= 3,
            is_rectangular(start),
            same_shape(start, map@),
            forall|r: int, c: int|
                #![trigger cell(map@, r, c)]
                in_grid(start, r, c) ==> cell(map@, r, c) == if r < y {
                    after_doors(start, r, c)
                } else {
                    cell(start, r, c)
                },
    {
        for x in 1..width - 1
            invariant
                1 <= y < height - 1,
                height == start.len(),
                width == start[0]@.len(),
                height >= 3,
                width >= 3,
                is_rectangular(start),
                same_shape(start, map@),
                forall|r: int, c: int|
                    #![trigger cell(map@, r, c)]
                    in_grid(start, r, c) ==> cell(map@, r, c) == if r < y || (r == y && c < x) {
                        after_doors(start, r, c)
                    } else {
                        cell(start, r, c)
                    },
        {
            assert(start[y - 1]@.len() == width && start[y as int]@.len() == width && start[y
                + 1]@.len() == width);
            assert(map@[y - 1]@.len() == width && map@[y as int]@.len() == width && map@[y
                + 1]@.len() == width);
            if map[y][x] == TileType::Wall {
                let mut floors: usize = 0;
                if map[y - 1][x] == TileType::Floor {
                    floors += 1;
                }
                if map[y + 1][x] == TileType::Floor {
                    floors += 1;
                }
                if map[y][x - 1] == TileType::Floor {
                    floors += 1;
                }
                if map[y][x + 1] == TileType::Floor {
                    floors += 1;
                }
                assert(floors == floor_neighbours(start, y as int, x as int)) by {
                    assert(is_floor(map@, y - 1, x as int) == is_floor(start, y - 1, x as int));
                    assert(is_floor(map@, y + 1, x as int) == is_floor(start, y + 1, x as int));
                    assert(is_floor(map@, y as int, x - 1) == is_floor(start, y as int, x - 1));
                    assert(is_floor(map@, y as int, x + 1) == is_floor(start, y as int, x + 1));
                }
                if floors >= 2 {
                    map[y][x] = TileType::Door;
                }
            }
        }
    }
    proof {
        assert forall|p: (int, int)| #[trigger] passable(start, p) implies passable(map@, p) by {
            assert(cell(map@, p.0, p.1) == cell(map@, p.0, p.1));
        }
        if has_no_doors(start) {
            lemma_doors_placed(start, map@);
        }
    }
}

} // verus!
