//! Binary space partitioning: the dungeon is split recursively, a room is
//! carved in each leaf that can hold one, and sibling subtrees are joined by
//! corridors, which connects every room to every other.
use crate::dungeon::{
    cell, has_no_doors, Dungeon, DungeonBuildConfig, DungeonBuildError, DungeonBuilder,
    TileType,
};
use crate::grid::{
    all_reach, carve_corridor, carve_rect, connected, floor_connected, grows, in_grid, in_rect,
    is_rectangular, lemma_connected_grows, lemma_connected_refl, lemma_connected_sym,
    lemma_connected_trans, lemma_corridor_connects, lemma_doors_keep_reach, lemma_floor_connected, lemma_rect_connected,
    corridor_carved, doorless_grid, doors_placed, lemma_corridor_only_walls, lemma_only_walls_carved_refl, lemma_only_walls_carved_trans, new_cells_reach, only_walls_carved, new_wall_grid, passable, place_doors, same_shape,
};
use crate::random::{coin_flip, random_between};
use vstd::prelude::*;

verus! {

/// Splits the dungeon recursively and carves a room in each leaf.
pub struct BinaryPartitionBuilder;

impl DungeonBuilder for BinaryPartitionBuilder {
    fn build(self, build_config: DungeonBuildConfig) -> (r: Result<Dungeon, DungeonBuildError>)
        ensures
            r is Ok <==> build_config.dungeon_size.width > build_config.room_size.min_room_size
                && build_config.dungeon_size.height > build_config.room_size.min_room_size,
            r is Err ==> r->Err_0 is NoRoomsCreated,
            r is Ok ==> floor_connected(r->Ok_0.map@),
            r is Ok ==> exists|t: RoomsPartition|
                {
                    &&& #[trigger] t.wf()
                    &&& t.respects(build_config.room_size.min_room_size as int)
                    &&& t.leaves_settled(
                        build_config.room_size.min_room_size as int,
                        build_config.room_size.max_room_size as int,
                    )
                    &&& t.rooms_fit_leaves(
                        build_config.room_size.min_room_size as int,
                        build_config.room_size.max_room_size as int,
                    )
                    &&& t.root_room == (Room {
                        x: 0,
                        y: 0,
                        width: build_config.dungeon_size.width,
                        height: build_config.dungeon_size.height,
                    })
                    &&& t.leaf_rooms().len() > 0
                    &&& rooms_inside(
                        t.leaf_rooms(),
                        t.root_room,
                        build_config.room_size.min_room_size as int,
                        build_config.room_size.max_room_size as int,
                    )
                    &&& rooms_floored(r->Ok_0.map@, t.leaf_rooms())
                },
            r is Ok && build_config.should_place_doors ==> doors_placed(r->Ok_0.map@),
    {
        let width = build_config.dungeon_size.width;
        let height = build_config.dungeon_size.height;
        let room_min_size = build_config.room_size.min_room_size;
        let room_max_size = build_config.room_size.max_room_size;

        let mut map = new_wall_grid(width, height);
        let whole = Room { x: 0, y: 0, width, height };
        let mut root_node = RoomsPartition::new(whole);
        root_node.partition_tree(room_min_size, room_max_size);

        let mut rooms: Vec<Room> = Vec::new();
        root_node.create_rooms(&mut rooms, room_min_size, room_max_size);
        assert(rooms@ =~= root_node.leaf_rooms());
        if rooms.len() == 0 {
            return Err(DungeonBuildError::NoRoomsCreated);
        }
        assert(rooms@[0].width < width && rooms@[0].width >= room_min_size);
        assert(rooms@[0].height < height && rooms@[0].height >= room_min_size);

        for k in 0..rooms.len()
            invariant
                doorless_grid(map@, width as int, height as int),
                rooms_inside(rooms@, whole, room_min_size as int, room_max_size as int),
                whole.x == 0 && whole.y == 0 && whole.width == width && whole.height == height,
                forall|i: int, p: (int, int)|
                    0 <= i < k && #[trigger] in_room(rooms@[i], p) ==> passable(map@, p) && cell(
                        map@,
                        p.0,
                        p.1,
                    ) == TileType::Floor,
                forall|p: (int, int)|
                    #[trigger] passable(map@, p) ==> exists|i: int|
                        0 <= i < k && #[trigger] in_room(rooms@[i], p),
        {
            let room = rooms[k];
            let ghost before = map@;
            assert(within(rooms@[k as int], whole));
            carve_rect(&mut map, room.x, room.y, room.width, room.height);
            assert forall|i: int, p: (int, int)|
                0 <= i < k + 1 && #[trigger] in_room(rooms@[i], p) implies passable(map@, p) && cell(
                map@,
                p.0,
                p.1,
            ) == TileType::Floor by {
                if i < k {
                    assert(passable(before, p));
                }
                assert(passable(map@, p));
                assert(cell(map@, p.0, p.1) == cell(map@, p.0, p.1));
            }
            assert forall|p: (int, int)| #[trigger] passable(map@, p) implies exists|i: int|
                0 <= i < k + 1 && #[trigger] in_room(rooms@[i], p) by {
                if passable(before, p) {
                    let i = choose|i: int| 0 <= i < k && #[trigger] in_room(rooms@[i], p);
                    assert(in_room(rooms@[i], p));
                } else {
                    assert(in_grid(before, p.0, p.1));
                    assert(cell(map@, p.0, p.1) == cell(map@, p.0, p.1));
                    assert(in_room(rooms@[k as int], p));
                }
            }
            assert forall|row: int| 0 <= row < height implies (#[trigger] map@[row])@.len() == width by {
                assert(before[row]@.len() == width);
            }
            assert forall|row: int, col: int| 0 <= row < map@.len() && 0 <= col < map@[row]@.len() implies cell(map@, row, col) != TileType::Door by {
                assert(in_grid(before, row, col));
            }
        }

        assert(map@[0]@.len() == width);
        let ghost unconnected = map@;
        let ghost hub = center_of(rooms@[0]);
        proof {
            assert forall|i: int| 0 <= i < root_node.leaf_rooms().len() implies #[trigger] passable(
                unconnected,
                center_of(root_node.leaf_rooms()[i]),
            ) by {
                assert(root_node.leaf_rooms()[i] == rooms@[i]);
                assert(in_room(rooms@[i], center_of(rooms@[i])));
            }
        }
        root_node.connect_rooms(&mut map);
        let ghost joined = map@;
        assert forall|row: int| 0 <= row < height implies (#[trigger] map@[row])@.len() == width by {
            assert(unconnected[row]@.len() == width);
        }
        proof {
            assert forall|p: (int, int)| #[trigger] passable(map@, p) implies connected(map@, p, hub) by {
                if passable(unconnected, p) {
                    let i = choose|i: int| 0 <= i < rooms@.len() && #[trigger] in_room(rooms@[i], p);
                    let q = rooms@[i];
                    assert(in_room(q, center_of(q)));
                    assert forall|c: (int, int)| in_rect(q.x as int, q.y as int, q.width as int, q.height as int, c.0, c.1)
                        implies #[trigger] passable(unconnected, c) by {
                        assert(in_room(rooms@[i], c));
                    }
                    lemma_rect_connected(unconnected, q.x as int, q.y as int, q.width as int, q.height as int, p, center_of(q));
                    lemma_connected_grows(unconnected, map@, p, center_of(q));
                    assert(root_node.leaf_rooms()[i] == q);
                    assert(connected(map@, center_of(root_node.leaf_rooms()[i]), hub));
                    lemma_connected_trans(map@, p, center_of(q), hub);
                }
            }
            assert(all_reach(map@, hub));
        }
        if build_config.should_place_doors {
            let ghost before = map@;
            place_doors(&mut map);
            assert forall|row: int| 0 <= row < height implies (#[trigger] map@[row])@.len() == width by {
                assert(before[row]@.len() == width);
            }
            proof {
                lemma_doors_keep_reach(before, map@, hub);
            }
        }
        proof {
            lemma_floor_connected(map@, hub);
            let t = root_node;
            assert forall|i: int, p: (int, int)|
                0 <= i < t.leaf_rooms().len() && #[trigger] in_room(t.leaf_rooms()[i], p) implies in_grid(
                map@,
                p.0,
                p.1,
            ) && cell(map@, p.0, p.1) == TileType::Floor by {
                assert(t.leaf_rooms()[i] == rooms@[i]);
                assert(passable(unconnected, p) && cell(unconnected, p.0, p.1) == TileType::Floor);
                assert(cell(joined, p.0, p.1) == cell(joined, p.0, p.1));
                assert(in_grid(joined, p.0, p.1));
                assert(cell(map@, p.0, p.1) == cell(map@, p.0, p.1));
            }
            assert(rooms_floored(map@, t.leaf_rooms()));
            assert(t.wf());
        }
        Ok(Dungeon { map })
    }
}

/// Every cell of every room of `rooms` is a floor cell of `map`.
pub open spec fn rooms_floored(map: Seq<Vec<TileType>>, rooms: Seq<Room>) -> bool {
    forall|i: int, p: (int, int)|
        0 <= i < rooms.len() && #[trigger] in_room(rooms[i], p) ==> in_grid(map, p.0, p.1) && cell(
            map,
            p.0,
            p.1,
        ) == TileType::Floor
}

/// An axis-aligned rectangle: columns `x..x + width`, rows `y..y + height`.
#[derive(Debug, Copy, Clone)]
pub struct Room {
    pub x: usize,
    pub y: usize,
    pub width: usize,
    pub height: usize,
}

/// The center cell of a room, as (row, column).
pub open spec fn center_of(room: Room) -> (int, int) {
    (room.y + room.height / 2, room.x + room.width / 2)
}

/// `p` (row, column) is a cell of `room`.
pub open spec fn in_room(room: Room, p: (int, int)) -> bool {
    in_rect(room.x as int, room.y as int, room.width as int, room.height as int, p.0, p.1)
}

/// The center of every room of `rooms` is joined to `hub`.
pub open spec fn rooms_reach(map: Seq<Vec<TileType>>, rooms: Seq<Room>, hub: (int, int)) -> bool {
    forall|i: int| 0 <= i < rooms.len() ==> #[trigger] connected(map, center_of(rooms[i]), hub)
}

/// No cell became passable.
pub open spec fn nothing_new(before: Seq<Vec<TileType>>, after: Seq<Vec<TileType>>) -> bool {
    forall|p: (int, int)| #[trigger] passable(after, p) ==> passable(before, p)
}

/// `inner` lies inside `outer`.
pub open spec fn within(inner: Room, outer: Room) -> bool {
    &&& outer.x <= inner.x
    &&& inner.x + inner.width <= outer.x + outer.width
    &&& outer.y <= inner.y
    &&& inner.y + inner.height <= outer.y + outer.height
}

/// The rectangles of `a` and `b` share a cell.
pub open spec fn rects_overlap(a: Room, b: Room) -> bool {
    &&& a.x < b.x + b.width
    &&& b.x < a.x + a.width
    &&& a.y < b.y + b.height
    &&& b.y < a.y + a.height
}

/// `a` (top) and `b` (bottom) cut `p` along a row, with no gap and no overlap.
pub open spec fn splits_horizontally(p: Room, a: Room, b: Room) -> bool {
    &&& a.x == p.x && b.x == p.x
    &&& a.width == p.width && b.width == p.width
    &&& a.y == p.y
    &&& b.y == p.y + a.height
    &&& a.height + b.height == p.height
}

/// `a` (left) and `b` (right) cut `p` along a column, with no gap and no overlap.
pub open spec fn splits_vertically(p: Room, a: Room, b: Room) -> bool {
    &&& a.y == p.y && b.y == p.y
    &&& a.height == p.height && b.height == p.height
    &&& a.x == p.x
    &&& b.x == p.x + a.width
    &&& a.width + b.width == p.width
}

impl Room {
    pub fn center(&self) -> (r: (usize, usize))
        requires
            self.x + self.width <= usize::MAX,
            self.y + self.height <= usize::MAX,
        ensures
            r.0 == self.x + self.width / 2,
            r.1 == self.y + self.height / 2,
    {
        (self.x + self.width / 2, self.y + self.height / 2)
    }
}

/// A node of the partition tree: its rectangle, the room carved in it (for
/// a leaf), and its two halves (for an inner node).
pub struct RoomsPartition {
    pub root_room: Room,
    pub room: Option<Room>,
    pub left: Option<Box<RoomsPartition>>,
    pub right: Option<Box<RoomsPartition>>,
}

impl RoomsPartition {
    pub open spec fn is_leaf(&self) -> bool {
        self.left is None && self.right is None
    }

    /// Every node is at least one cell wide and high, with far edges that
    /// fit in `usize`; an inner node has two halves that cut it exactly and
    /// no room; a leaf's room, if any, lies inside the leaf.
    pub open spec fn wf(&self) -> bool
        decreases self,
    {
        &&& self.root_room.width >= 1
        &&& self.root_room.height >= 1
        &&& self.root_room.x + self.root_room.width <= usize::MAX
        &&& self.root_room.y + self.root_room.height <= usize::MAX
        &&& match (self.left, self.right) {
            (Some(l), Some(r)) => {
                &&& self.room is None
                &&& (splits_horizontally(self.root_room, l.root_room, r.root_room)
                    || splits_vertically(self.root_room, l.root_room, r.root_room))
                &&& l.wf()
                &&& r.wf()
            },
            (None, None) => match self.room {
                Some(room) => within(room, self.root_room) && room.width >= 1 && room.height >= 1,
                None => true,
            },
            _ => false,
        }
    }

    /// No node holds a room.
    pub open spec fn roomless(&self) -> bool
        decreases self,
    {
        &&& self.room is None
        &&& match self.left {
            Some(l) => l.roomless(),
            None => true,
        }
        &&& match self.right {
            Some(r) => r.roomless(),
            None => true,
        }
    }

    /// The rooms of the leaves, left to right.
    pub open spec fn leaf_rooms(&self) -> Seq<Room>
        decreases self,
    {
        let own = match self.room {
            Some(room) => seq![room],
            None => Seq::empty(),
        };
        let l = match self.left {
            Some(l) => l.leaf_rooms(),
            None => Seq::empty(),
        };
        let r = match self.right {
            Some(r) => r.leaf_rooms(),
            None => Seq::empty(),
        };
        own + l + r
    }

    /// The center of the first room met depth first, left before right.
    pub open spec fn first_center(&self) -> Option<(usize, usize)>
        decreases self,
    {
        match self.room {
            Some(room) => Some(
                ((room.x + room.width / 2) as usize, (room.y + room.height / 2) as usize),
            ),
            None => {
                let l = match self.left {
                    Some(l) => l.first_center(),
                    None => None,
                };
                match l {
                    Some(c) => Some(c),
                    None => match self.right {
                        Some(r) => r.first_center(),
                        None => None,
                    },
                }
            },
        }
    }

    /// A leaf over `root_room`, with no room yet.
    pub fn new(root_room: Room) -> (r: Self)
        ensures
            r.root_room == root_room,
            r.room is None,
            r.is_leaf(),
    {
        Self { root_room, room: None, left: None, right: None }
    }

    /// Cuts a leaf in two along its longer side (either way when square), at
    /// an offset drawn from `min_size..dim - min_size`; fails, changing
    /// nothing, on an inner node or when that range is empty.
    pub fn split(&mut self, min_size: usize) -> (r: bool)
        requires
            old(self).wf(),
            old(self).room is None,
            min_size >= 1,
        ensures
            r <==> old(self).is_leaf() && (if old(self).root_room.height > old(self).root_room.width {
                old(self).root_room.height
            } else {
                old(self).root_room.width
            }) > 2 * min_size,
            !r ==> *final(self) == *old(self),
            r ==> final(self).root_room == old(self).root_room && final(self).room == old(
                self,
            ).room && final(self).children_are_fresh_halves(min_size as int),
            r && old(self).root_room.height > old(self).root_room.width ==> splits_horizontally(
                final(self).root_room,
                final(self).left->Some_0.root_room,
                final(self).right->Some_0.root_room,
            ),
            r && old(self).root_room.width > old(self).root_room.height ==> splits_vertically(
                final(self).root_room,
                final(self).left->Some_0.root_room,
                final(self).right->Some_0.root_room,
            ),
    {
        if self.left.is_some() || self.right.is_some() {
            return false;
        }
        let should_split_horizontally = if self.root_room.height > self.root_room.width {
            true
        } else if self.root_room.width > self.root_room.height {
            false
        } else {
            coin_flip()
        };
        let dim = if should_split_horizontally {
            self.root_room.height
        } else {
            self.root_room.width
        };
        if dim < min_size || dim - min_size <= min_size {
            return false;
        }
        let split = random_between(min_size, dim - min_size - 1);
        let p = self.root_room;
        if should_split_horizontally {
            self.left = Some(Box::new(RoomsPartition::new(Room { x: p.x, y: p.y, width: p.width, height: split })));
            self.right = Some(Box::new(RoomsPartition::new(Room { x: p.x, y: p.y + split, width: p.width, height: p.height - split })));
        } else {
            self.left = Some(Box::new(RoomsPartition::new(Room { x: p.x, y: p.y, width: split, height: p.height })));
            self.right = Some(Box::new(RoomsPartition::new(Room { x: p.x + split, y: p.y, width: p.width - split, height: p.height })));
        }
        true
    }

    /// Both halves exist, are roomless leaves that cut this node exactly, and
    /// are at least `min` cells across the cut.
    pub open spec fn children_are_fresh_halves(&self, min: int) -> bool {
        &&& self.room is None
        &&& self.left matches Some(l) && l.is_leaf() && l.room is None
        &&& self.right matches Some(r) && r.is_leaf() && r.room is None
        &&& {
            let (a, b) = (self.left->Some_0.root_room, self.right->Some_0.root_room);
            ||| splits_horizontally(self.root_room, a, b) && a.height >= min && b.height > min
            ||| splits_vertically(self.root_room, a, b) && a.width >= min && b.width > min
        }
    }

    /// Each inner node is cut with its first half at least `min` across the
    /// cut and its second half more than `min`.
    pub open spec fn respects(&self, min: int) -> bool
        decreases self,
    {
        match (self.left, self.right) {
            (Some(l), Some(r)) => {
                &&& (splits_horizontally(self.root_room, l.root_room, r.root_room)
                    && l.root_room.height >= min && r.root_room.height > min)
                    || (splits_vertically(self.root_room, l.root_room, r.root_room)
                    && l.root_room.width >= min && r.root_room.width > min)
                &&& l.respects(min)
                &&& r.respects(min)
            },
            _ => true,
        }
    }

    /// Every leaf is at most `max` on both sides, or at most `2 * min` on
    /// both (too small to split).
    pub open spec fn leaves_settled(&self, min: int, max: int) -> bool
        decreases self,
    {
        match (self.left, self.right) {
            (Some(l), Some(r)) => l.leaves_settled(min, max) && r.leaves_settled(min, max),
            _ => (self.root_room.width <= max && self.root_room.height <= max) || (
            self.root_room.width <= 2 * min && self.root_room.height <= 2 * min),
        }
    }

    /// Every leaf has a room exactly when both its sides exceed `min`, and
    /// that room's sides lie in `min..=min(side - 1, max)`.
    pub open spec fn rooms_fit_leaves(&self, min: int, max: int) -> bool
        decreases self,
    {
        match (self.left, self.right) {
            (Some(l), Some(r)) => l.rooms_fit_leaves(min, max) && r.rooms_fit_leaves(min, max),
            _ => {
                &&& (self.room is Some <==> self.root_room.width > min && self.root_room.height
                    > min)
                &&& self.room matches Some(q) ==> min <= q.width <= max && q.width
                    <= self.root_room.width - 1 && min <= q.height <= max && q.height
                    <= self.root_room.height - 1
            },
        }
    }

    /// The same tree of rectangles as `other`, whatever the rooms.
    pub open spec fn same_layout(&self, other: RoomsPartition) -> bool
        decreases self,
    {
        &&& self.root_room == other.root_room
        &&& match (self.left, other.left) {
            (Some(a), Some(b)) => a.same_layout(*b),
            (None, None) => true,
            _ => false,
        }
        &&& match (self.right, other.right) {
            (Some(a), Some(b)) => a.same_layout(*b),
            (None, None) => true,
            _ => false,
        }
    }

    /// Splits recursively: a node wider or higher than `max_size` is always
    /// split, a smaller one on a coin flip; recursion ends where a split fails.
    pub fn partition_tree(&mut self, min_size: usize, max_size: usize)
        requires
            old(self).wf(),
            old(self).is_leaf(),
            old(self).room is None,
            min_size >= 1,
        ensures
            final(self).wf(),
            final(self).roomless(),
            final(self).respects(min_size as int),
            final(self).root_room == old(self).root_room,
            final(self).leaves_settled(min_size as int, max_size as int),
        decreases old(self).root_room.width + old(self).root_room.height,
    {
        let can_split = self.root_room.width > max_size || self.root_room.height > max_size
            || coin_flip();
        if !can_split {
            return;
        }
        if self.split(min_size) {
            match &mut self.left {
                Some(left) => left.partition_tree(min_size, max_size),
                None => {},
            }
            match &mut self.right {
                Some(right) => right.partition_tree(min_size, max_size),
                None => {},
            }
        }
    }
}

/// Every room of `rooms` is `min..=max` on each side, narrower and lower
/// than `outer`, and inside it.
pub open spec fn rooms_inside(rooms: Seq<Room>, outer: Room, min: int, max: int) -> bool {
    forall|i: int|
        0 <= i < rooms.len() ==> {
            let r = #[trigger] rooms[i];
            &&& within(r, outer)
            &&& min <= r.width <= max && r.width < outer.width
            &&& min <= r.height <= max && r.height < outer.height
        }
}

impl RoomsPartition {
    /// Carves a room in every leaf that can hold one: its sides are drawn
    /// from `min_size..=min(side - 1, max_size)` and its corner anywhere the
    /// room stays inside the leaf; a leaf where that range is empty gets no
    /// room. The rooms made are appended to `rooms`, left to right.
    pub fn create_rooms(&mut self, rooms: &mut Vec<Room>, min_size: usize, max_size: usize)
        requires
            old(self).wf(),
            old(self).roomless(),
            old(self).respects(min_size as int),
            1 <= min_size <= max_size,
        ensures
            final(self).wf(),
            final(self).same_layout(*old(self)),
            final(self).respects(min_size as int),
            final(rooms)@ == old(rooms)@ + final(self).leaf_rooms(),
            rooms_inside(final(self).leaf_rooms(), old(self).root_room, min_size as int, max_size as int),
            old(self).root_room.width > min_size && old(self).root_room.height > min_size
                ==> final(self).leaf_rooms().len() > 0,
            final(self).rooms_fit_leaves(min_size as int, max_size as int),
            old(self).leaves_settled(min_size as int, max_size as int)
                ==> final(self).leaves_settled(min_size as int, max_size as int),
        decreases old(self).root_room.width + old(self).root_room.height,
    {
        if self.left.is_none() && self.right.is_none() {
            let leaf = self.root_room;
            let w_max = if leaf.width - 1 < max_size { leaf.width - 1 } else { max_size };
            let h_max = if leaf.height - 1 < max_size { leaf.height - 1 } else { max_size };
            if min_size > w_max || min_size > h_max {
                return;
            }
            let room_w = random_between(min_size, w_max);
            let room_h = random_between(min_size, h_max);
            let room_x = random_between(leaf.x, leaf.x + leaf.width - room_w);
            let room_y = random_between(leaf.y, leaf.y + leaf.height - room_h);
            let room = Room { x: room_x, y: room_y, width: room_w, height: room_h };
            self.room = Some(room);
            rooms.push(room);
            assert(self.leaf_rooms() =~= seq![room]);
            return;
        }
        let ghost start = *self;
        let ghost before = rooms@;
        match &mut self.left {
            Some(left) => left.create_rooms(rooms, min_size, max_size),
            None => {},
        }
        let ghost mid = rooms@;
        match &mut self.right {
            Some(right) => right.create_rooms(rooms, min_size, max_size),
            None => {},
        }
        proof {
            let l = self.left->Some_0;
            let r = self.right->Some_0;
            assert(self.leaf_rooms() =~= l.leaf_rooms() + r.leaf_rooms());
            assert(rooms@ =~= before + self.leaf_rooms());
            let all = self.leaf_rooms();
            assert forall|i: int| 0 <= i < all.len() implies {
                let q = #[trigger] all[i];
                &&& within(q, start.root_room)
                &&& min_size <= q.width <= max_size && q.width < start.root_room.width
                &&& min_size <= q.height <= max_size && q.height < start.root_room.height
            } by {
                if i < l.leaf_rooms().len() {
                    assert(all[i] == l.leaf_rooms()[i]);
                } else {
                    assert(all[i] == r.leaf_rooms()[i - l.leaf_rooms().len()]);
                }
            }
        }
    }

    /// The center of the first room found depth first, left before right.
    pub fn get_room_center(&self) -> (r: Option<(usize, usize)>)
        requires
            self.wf(),
        ensures
            r == self.first_center(),
            r matches Some(c) ==> self.root_room.x <= c.0 < self.root_room.x + self.root_room.width
                && self.root_room.y <= c.1 < self.root_room.y + self.root_room.height,
        decreases self,
    {
        match &self.room {
            Some(room) => {
                return Some(room.center());
            },
            None => {},
        }
        match &self.left {
            Some(l) => {
                let c = l.get_room_center();
                if c.is_some() {
                    return c;
                }
            },
            None => {},
        }
        match &self.right {
            Some(r) => r.get_room_center(),
            None => None,
        }
    }

    /// Joins, at every inner node, the first room of the left half to the
    /// first room of the right half, children before parents. Given that the
    /// rooms' centers are passable, every room's center ends up joined to the
    /// first room's, and so does every cell made passable here.
    pub fn connect_rooms(&self, map: &mut Vec<Vec<TileType>>)
        requires
            self.wf(),
            is_rectangular(old(map)@),
            self.root_room.x + self.root_room.width <= old(map)@[0]@.len(),
            self.root_room.y + self.root_room.height <= old(map)@.len(),
            forall|i: int|
                0 <= i < self.leaf_rooms().len() ==> #[trigger] passable(
                    old(map)@,
                    center_of(self.leaf_rooms()[i]),
                ),
        ensures
            same_shape(old(map)@, final(map)@),
            has_no_doors(old(map)@) ==> has_no_doors(final(map)@),
            grows(old(map)@, final(map)@),
            only_walls_carved(old(map)@, final(map)@),
            self.leaf_rooms().len() == 0 ==> nothing_new(old(map)@, final(map)@),
            self.leaf_rooms().len() > 0 ==> rooms_reach(
                final(map)@,
                self.leaf_rooms(),
                center_of(self.leaf_rooms()[0]),
            ) && new_cells_reach(old(map)@, final(map)@, center_of(self.leaf_rooms()[0])),
        decreases self,
    {
        let ghost m0 = map@;
        proof {
            lemma_first_center(*self);
        }
        if self.left.is_none() || self.right.is_none() {
            proof {
                if self.leaf_rooms().len() > 0 {
                    let room = self.room->Some_0;
                    assert(self.leaf_rooms()[0] == room);
                    assert(passable(m0, center_of(room)));
                    lemma_connected_refl(m0, center_of(room));
                }
                lemma_only_walls_carved_refl(m0);
            }
            return;
        }
        let l = self.left.as_ref().unwrap();
        let r = self.right.as_ref().unwrap();
        let ghost ls = l.leaf_rooms();
        let ghost rs = r.leaf_rooms();
        proof {
            assert(self.leaf_rooms() =~= ls + rs);
            assert forall|i: int| 0 <= i < ls.len() implies #[trigger] passable(m0, center_of(ls[i])) by {
                assert(self.leaf_rooms()[i] == ls[i]);
            }
        }
        l.connect_rooms(map);
        let ghost m1 = map@;
        proof {
            lemma_same_shape_rectangular(m0, m1);
            assert forall|i: int| 0 <= i < rs.len() implies #[trigger] passable(m1, center_of(rs[i])) by {
                assert(self.leaf_rooms()[ls.len() + i] == rs[i]);
                assert(passable(m0, center_of(rs[i])));
            }
        }
        r.connect_rooms(map);
        let ghost m2 = map@;
        proof {
            lemma_same_shape_rectangular(m1, m2);
            lemma_only_walls_carved_trans(m0, m1, m2);
            lemma_first_center(**l);
            lemma_first_center(**r);
        }
        let left_center = l.get_room_center();
        let right_center = r.get_room_center();
        match (left_center, right_center) {
            (Some((left_x, left_y)), Some((right_x, right_y))) => {
                apply_corridors(map, left_x, left_y, right_x, right_y);
            },
            _ => {},
        }
        proof {
            if map@ != m2 {
                lemma_only_walls_carved_trans(m0, m2, map@);
            }
            lemma_join_halves(m0, m1, m2, map@, ls, rs);
            assert(self.leaf_rooms() =~= ls + rs);
        }
    }
}

/// How the grids of the two halves and the corridor between them combine:
/// the walks of each half carry over to later grids, and the corridor joins
/// the first room of one half to the first room of the other.
proof fn lemma_join_halves(
    m0: Seq<Vec<TileType>>,
    m1: Seq<Vec<TileType>>,
    m2: Seq<Vec<TileType>>,
    m3: Seq<Vec<TileType>>,
    ls: Seq<Room>,
    rs: Seq<Room>,
)
    requires
        grows(m0, m1),
        grows(m1, m2),
        grows(m2, m3),
        ls.len() == 0 ==> nothing_new(m0, m1),
        ls.len() > 0 ==> rooms_reach(m1, ls, center_of(ls[0])) && new_cells_reach(
            m0,
            m1,
            center_of(ls[0]),
        ),
        rs.len() == 0 ==> nothing_new(m1, m2),
        rs.len() > 0 ==> rooms_reach(m2, rs, center_of(rs[0])) && new_cells_reach(
            m1,
            m2,
            center_of(rs[0]),
        ),
        ls.len() == 0 || rs.len() == 0 ==> m3 == m2,
        ls.len() > 0 && rs.len() > 0 ==> connected(m3, center_of(ls[0]), center_of(rs[0]))
            && new_cells_reach(m2, m3, center_of(ls[0])),
    ensures
        grows(m0, m3),
        ls.len() + rs.len() == 0 ==> nothing_new(m0, m3),
        ls.len() + rs.len() > 0 ==> rooms_reach(m3, ls + rs, center_of((ls + rs)[0]))
            && new_cells_reach(m0, m3, center_of((ls + rs)[0])),
{
    let all = ls + rs;
    assert(grows(m0, m3)) by {
        assert forall|p: (int, int)| #[trigger] passable(m0, p) implies passable(m3, p) by {
            assert(passable(m1, p));
            assert(passable(m2, p));
        }
        assert forall|row: int| 0 <= row < m0.len() implies (#[trigger] m0[row])@.len() == m3[row]@.len() by {
            assert(m1[row]@.len() == m0[row]@.len());
            assert(m2[row]@.len() == m1[row]@.len());
        }
    }
    if all.len() == 0 {
        assert forall|p: (int, int)| #[trigger] passable(m3, p) implies passable(m0, p) by {
            assert(passable(m2, p));
            assert(passable(m1, p));
        }
        return;
    }
    let hub = center_of(all[0]);
    if ls.len() > 0 {
        assert(all[0] == ls[0]);
    } else {
        assert(all[0] == rs[0]);
    }
    // the hub of the right half reaches the overall hub in m3
    if rs.len() > 0 {
        if ls.len() > 0 {
            lemma_connected_sym(m3, center_of(ls[0]), center_of(rs[0]));
        } else {
            assert(connected(m2, center_of(rs[0]), center_of(rs[0])));
            lemma_connected_grows(m2, m3, center_of(rs[0]), center_of(rs[0]));
        }
    }
    assert forall|i: int| 0 <= i < all.len() implies #[trigger] connected(m3, center_of(all[i]), hub) by {
        if i < ls.len() {
            assert(all[i] == ls[i]);
            assert(connected(m1, center_of(ls[i]), center_of(ls[0])));
            lemma_connected_grows(m1, m2, center_of(ls[i]), hub);
            lemma_connected_grows(m2, m3, center_of(ls[i]), hub);
        } else {
            let j = i - ls.len();
            assert(all[i] == rs[j]);
            assert(connected(m2, center_of(rs[j]), center_of(rs[0])));
            lemma_connected_grows(m2, m3, center_of(rs[j]), center_of(rs[0]));
            lemma_connected_trans(m3, center_of(rs[j]), center_of(rs[0]), hub);
        }
    }
    assert forall|p: (int, int)| #[trigger] passable(m3, p) && !passable(m0, p) implies connected(m3, p, hub) by {
        if passable(m1, p) {
            assert(ls.len() > 0);
            assert(connected(m1, p, center_of(ls[0])));
            lemma_connected_grows(m1, m2, p, hub);
            lemma_connected_grows(m2, m3, p, hub);
        } else if passable(m2, p) {
            assert(rs.len() > 0);
            assert(connected(m2, p, center_of(rs[0])));
            lemma_connected_grows(m2, m3, p, center_of(rs[0]));
            lemma_connected_trans(m3, p, center_of(rs[0]), hub);
        } else {
            assert(ls.len() > 0 && rs.len() > 0);
        }
    }
}

/// The first center found is that of the first leaf room, and there is one
/// exactly when some leaf has a room.
proof fn lemma_first_center(t: RoomsPartition)
    requires
        t.wf(),
    ensures
        t.first_center() is Some <==> t.leaf_rooms().len() > 0,
        t.leaf_rooms().len() > 0 ==> t.first_center()->Some_0.1 == center_of(t.leaf_rooms()[0]).0
            && t.first_center()->Some_0.0 == center_of(t.leaf_rooms()[0]).1,
        forall|i: int| 0 <= i < t.leaf_rooms().len() ==> {
            let room = #[trigger] t.leaf_rooms()[i];
            &&& within(room, t.root_room)
            &&& room.width >= 1 && room.height >= 1
        },
    decreases t,
{
    match (t.left, t.right) {
        (Some(l), Some(r)) => {
            lemma_first_center(*l);
            lemma_first_center(*r);
            assert(t.leaf_rooms() =~= l.leaf_rooms() + r.leaf_rooms());
            if l.leaf_rooms().len() > 0 {
                assert(t.leaf_rooms()[0] == l.leaf_rooms()[0]);
            } else if r.leaf_rooms().len() > 0 {
                assert(t.leaf_rooms()[0] == r.leaf_rooms()[0]);
            }
            assert forall|i: int| 0 <= i < t.leaf_rooms().len() implies {
                let room = #[trigger] t.leaf_rooms()[i];
                &&& within(room, t.root_room)
                &&& room.width >= 1 && room.height >= 1
            } by {
                if i < l.leaf_rooms().len() {
                    assert(t.leaf_rooms()[i] == l.leaf_rooms()[i]);
                } else {
                    assert(t.leaf_rooms()[i] == r.leaf_rooms()[i - l.leaf_rooms().len()]);
                }
            }
        },
        _ => {
            if t.room is Some {
                assert(t.leaf_rooms() =~= seq![t.room->Some_0]);
            } else {
                assert(t.leaf_rooms() =~= Seq::<Room>::empty());
            }
        },
    }
}

/// In a well-formed partition tree, at any node: the two halves of an inner
/// node lie inside it and never overlap, and a leaf's room lies inside the
/// leaf's rectangle.
pub proof fn lemma_partition_layout(node: RoomsPartition)
    requires
        node.wf(),
    ensures
        node.left matches Some(l) ==> within(l.root_room, node.root_room),
        node.right matches Some(r) ==> within(r.root_room, node.root_room),
        (node.left matches Some(l) && node.right matches Some(r)) ==> !rects_overlap(
            node.left->Some_0.root_room,
            node.right->Some_0.root_room,
        ),
        node.room matches Some(room) ==> within(room, node.root_room),
{
}

proof fn lemma_same_shape_rectangular(a: Seq<Vec<TileType>>, b: Seq<Vec<TileType>>)
    requires
        is_rectangular(a),
        same_shape(a, b),
    ensures
        is_rectangular(b),
        b[0]@.len() == a[0]@.len(),
{
    assert forall|row: int| 0 <= row < b.len() implies (#[trigger] b[row])@.len() == b[0]@.len() by {
        assert(a[row]@.len() == a[0]@.len());
    }
}

/// Joins `(x1, y1)` and `(x2, y2)` by an L-shaped corridor whose bend is
/// chosen by a coin flip.
fn apply_corridors(map: &mut Vec<Vec<TileType>>, x1: usize, y1: usize, x2: usize, y2: usize)
    requires
        is_rectangular(old(map)@),
        y1 < old(map)@.len(),
        y2 < old(map)@.len(),
        x1 < old(map)@[0]@.len(),
        x2 < old(map)@[0]@.len(),
    ensures
        same_shape(old(map)@, final(map)@),
        has_no_doors(old(map)@) ==> has_no_doors(final(map)@),
        grows(old(map)@, final(map)@),
        connected(final(map)@, (y1 as int, x1 as int), (y2 as int, x2 as int)),
        new_cells_reach(old(map)@, final(map)@, (y1 as int, x1 as int)),
        exists|h: bool|
            #[trigger] corridor_carved(
                old(map)@,
                final(map)@,
                x1 as int,
                y1 as int,
                x2 as int,
                y2 as int,
                h,
            ),
        only_walls_carved(old(map)@, final(map)@),
{
    let horizontal_first = coin_flip();
    carve_corridor(map, x1, y1, x2, y2, horizontal_first);
    proof {
        assert(corridor_carved(old(map)@, map@, x1 as int, y1 as int, x2 as int, y2 as int, horizontal_first));
        lemma_corridor_only_walls(old(map)@, map@, x1 as int, y1 as int, x2 as int, y2 as int, horizontal_first);
        lemma_corridor_connects(map@, x1 as int, y1 as int, x2 as int, y2 as int, horizontal_first);
        assert forall|p: (int, int)| #[trigger] passable(map@, p) && !passable(old(map)@, p)
            implies connected(map@, p, (y1 as int, x1 as int)) by {
            assert(in_grid(old(map)@, p.0, p.1));
            assert(cell(map@, p.0, p.1) == cell(map@, p.0, p.1));
        }
    }
    assert forall|row: int, col: int| has_no_doors(old(map)@) && 0 <= row < map@.len() && 0 <= col < map@[row]@.len() implies cell(map@, row, col) != TileType::Door by {
        assert(in_grid(old(map)@, row, col));
    }
}

} // verus!
