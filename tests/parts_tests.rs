use dungoxide::binary_partition_builder::{Room as Rect, RoomsPartition};
use dungoxide::dungeon::TileType;
use dungoxide::grid::{carve_corridor, carve_rect, new_wall_grid, place_doors};
use dungoxide::room_placement_builder::{
    edges_by_length, place_rooms, try_place_room, Room, UnionFind,
};

const W: TileType = TileType::Wall;
const F: TileType = TileType::Floor;
const D: TileType = TileType::Door;

#[test]
fn wall_grid_has_shape() {
    let map = new_wall_grid(7, 3);
    assert_eq!(map.len(), 3);
    assert!(map.iter().all(|row| row.len() == 7 && row.iter().all(|&t| t == W)));
}

#[test]
fn carve_rect_marks_exactly_the_rectangle() {
    let mut map = new_wall_grid(5, 4);
    carve_rect(&mut map, 1, 2, 3, 2);
    let expected = vec![
        vec![W, W, W, W, W],
        vec![W, W, W, W, W],
        vec![W, F, F, F, W],
        vec![W, F, F, F, W],
    ];
    assert_eq!(map, expected);
}

#[test]
fn corridor_horizontal_first() {
    let mut map = new_wall_grid(5, 4);
    carve_corridor(&mut map, 0, 0, 3, 2, true);
    let expected = vec![
        vec![F, F, F, F, W],
        vec![W, W, W, F, W],
        vec![W, W, W, F, W],
        vec![W, W, W, W, W],
    ];
    assert_eq!(map, expected);
}

#[test]
fn corridor_vertical_first_keeps_doors() {
    let mut map = new_wall_grid(5, 4);
    map[1][0] = D;
    carve_corridor(&mut map, 0, 0, 3, 2, false);
    let expected = vec![
        vec![F, W, W, W, W],
        vec![D, W, W, W, W],
        vec![F, F, F, F, W],
        vec![W, W, W, W, W],
    ];
    assert_eq!(map, expected);
}

#[test]
fn doors_on_walls_between_two_floors() {
    let mut map = vec![
        vec![W, W, W, W, W],
        vec![W, F, W, F, W],
        vec![W, W, W, W, W],
        vec![W, F, W, W, W],
        vec![F, W, F, W, W],
    ];
    place_doors(&mut map);
    let expected = vec![
        vec![W, W, W, W, W],
        vec![W, F, D, F, W],
        vec![W, D, W, W, W],
        vec![W, F, D, W, W],
        vec![F, W, F, W, W],
    ];
    assert_eq!(map, expected);
}

#[test]
fn room_new_and_intersects() {
    let a = Room::new(1, 1, 4, 3);
    assert_eq!((a.center_x, a.center_y), (3, 2));
    let touching = Room::new(5, 1, 2, 2);
    let overlapping = Room::new(4, 3, 2, 2);
    assert!(!a.intersects(&touching));
    assert!(a.intersects(&overlapping));
    assert!(overlapping.intersects(&a));
}

#[test]
fn try_place_room_rejects_overlap() {
    let mut rooms = vec![Room::new(1, 1, 3, 3)];
    assert!(!try_place_room(&mut rooms, Room::new(3, 3, 2, 2)));
    assert_eq!(rooms.len(), 1);
    assert!(try_place_room(&mut rooms, Room::new(4, 1, 2, 2)));
    assert_eq!(rooms.len(), 2);
}

#[test]
fn placed_rooms_never_overlap_and_keep_margin() {
    for _ in 0..20 {
        let rooms = place_rooms(50, 40, 3, 8);
        for (i, a) in rooms.iter().enumerate() {
            assert!(a.x >= 1 && a.x + a.width + 2 <= 50);
            assert!(a.y >= 1 && a.y + a.height + 2 <= 40);
            assert!((3..=8).contains(&a.width) && (3..=8).contains(&a.height));
            for b in rooms.iter().skip(i + 1) {
                assert!(!a.intersects(b));
            }
        }
    }
}

#[test]
fn no_room_fits_without_margin() {
    assert!(place_rooms(6, 30, 4, 6).is_empty());
}

#[test]
fn edges_are_sorted_by_squared_distance() {
    let rooms = vec![Room::new(0, 0, 1, 1), Room::new(10, 0, 1, 1), Room::new(3, 4, 1, 1)];
    let edges = edges_by_length(&rooms);
    assert_eq!(edges, vec![(0, 2, 25), (1, 2, 65), (0, 1, 100)]);
}

#[test]
fn equal_edges_keep_enumeration_order() {
    let rooms = vec![Room::new(0, 0, 1, 1), Room::new(2, 0, 1, 1), Room::new(0, 2, 1, 1)];
    let edges = edges_by_length(&rooms);
    assert_eq!(edges, vec![(0, 1, 4), (0, 2, 4), (1, 2, 8)]);
}

#[test]
fn union_find_merges_sets() {
    let mut uf = UnionFind::new(5);
    assert_eq!(uf.count(), 5);
    uf.union(0, 1);
    uf.union(3, 4);
    assert_eq!(uf.count(), 3);
    assert_eq!(uf.find(0), uf.find(1));
    assert_ne!(uf.find(1), uf.find(3));
    uf.union(1, 4);
    assert_eq!(uf.count(), 2);
    assert_eq!(uf.find(0), uf.find(3));
    uf.union(0, 3);
    assert_eq!(uf.count(), 2);
    assert_ne!(uf.find(2), uf.find(0));
}

#[test]
fn rect_center() {
    let r = Rect { x: 2, y: 3, width: 5, height: 4 };
    assert_eq!(r.center(), (4, 5));
}

#[test]
fn split_cuts_longer_side_at_random_offsets() {
    let mut offsets = std::collections::BTreeSet::new();
    for _ in 0..100 {
        let mut node = RoomsPartition::new(Rect { x: 1, y: 2, width: 30, height: 10 });
        assert!(node.split(3));
        let l = node.left.as_ref().unwrap().root_room;
        let r = node.right.as_ref().unwrap().root_room;
        assert_eq!((l.x, l.y, l.height), (1, 2, 10));
        assert_eq!((r.y, r.height), (2, 10));
        assert_eq!(r.x, 1 + l.width);
        assert_eq!(l.width + r.width, 30);
        assert!(l.width >= 3 && l.width < 27);
        offsets.insert(l.width);
        assert!(!node.split(3));
    }
    assert!(offsets.len() > 1);
}

#[test]
fn split_fails_on_small_leaf() {
    let mut node = RoomsPartition::new(Rect { x: 0, y: 0, width: 6, height: 6 });
    assert!(!node.split(3));
    assert!(node.left.is_none() && node.right.is_none());
}

fn check_layout(node: &RoomsPartition, rooms: &mut usize) {
    let p = node.root_room;
    match (&node.left, &node.right) {
        (Some(l), Some(r)) => {
            let (a, b) = (l.root_room, r.root_room);
            let horizontal = a.x == p.x && b.x == p.x && a.width == p.width && b.width == p.width
                && a.y == p.y && b.y == p.y + a.height && a.height + b.height == p.height;
            let vertical = a.y == p.y && b.y == p.y && a.height == p.height && b.height == p.height
                && a.x == p.x && b.x == p.x + a.width && a.width + b.width == p.width;
            assert!(horizontal || vertical);
            assert!(node.room.is_none());
            check_layout(l, rooms);
            check_layout(r, rooms);
        }
        (None, None) => {
            if let Some(room) = node.room {
                *rooms += 1;
                assert!(room.x >= p.x && room.x + room.width <= p.x + p.width);
                assert!(room.y >= p.y && room.y + room.height <= p.y + p.height);
            }
        }
        _ => panic!("a node with one half"),
    }
}

#[test]
fn partition_rooms_lie_in_their_leaves() {
    for _ in 0..20 {
        let mut root = RoomsPartition::new(Rect { x: 0, y: 0, width: 64, height: 48 });
        root.partition_tree(4, 9);
        let mut rooms = Vec::new();
        root.create_rooms(&mut rooms, 4, 9);
        let mut counted = 0;
        check_layout(&root, &mut counted);
        assert_eq!(counted, rooms.len());
        assert!(!rooms.is_empty());
        let first = rooms[0];
        assert_eq!(
            root.get_room_center(),
            Some((first.x + first.width / 2, first.y + first.height / 2))
        );
    }
}

#[test]
fn connect_rooms_joins_first_rooms_of_halves() {
    let mut root = RoomsPartition::new(Rect { x: 0, y: 0, width: 12, height: 5 });
    let mut left = RoomsPartition::new(Rect { x: 0, y: 0, width: 6, height: 5 });
    left.room = Some(Rect { x: 1, y: 1, width: 2, height: 2 });
    let mut right = RoomsPartition::new(Rect { x: 6, y: 0, width: 6, height: 5 });
    right.room = Some(Rect { x: 8, y: 1, width: 2, height: 2 });
    root.left = Some(Box::new(left));
    root.right = Some(Box::new(right));
    let mut map = new_wall_grid(12, 5);
    root.connect_rooms(&mut map);
    // both centers, (2, 2) and (9, 2), share row 2: the corridor is straight
    for x in 2..=9 {
        assert_eq!(map[2][x], F);
    }
    assert_eq!(map.iter().flatten().filter(|&&t| t == F).count(), 8);
}
