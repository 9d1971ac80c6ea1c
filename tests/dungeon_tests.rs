use dungoxide::dungeon::{
    DungeonBuildConfig, DungeonBuildError, DungeonBuilder, DungeonConfigBuilder, DungeonSize,
    RoomSize, TileType,
};
use dungoxide::{BinaryPartitionBuilder, RoomPlacementBuilder};

#[test]
fn test_default_build() {
    let dungeon = DungeonConfigBuilder::new()
        .build_algorithm(BinaryPartitionBuilder)
        .build()
        .expect("Failed to build dungeon");
    assert_eq!(dungeon.map.len(), 32);
    assert_eq!(dungeon.map[0].len(), 32);
}

#[test]
fn test_custom_size() {
    let dungeon = DungeonConfigBuilder::new()
        .build_algorithm(BinaryPartitionBuilder)
        .dungeon_size(DungeonSize { width: 60, height: 40 })
        .build()
        .expect("Failed to build dungeon");
    assert_eq!(dungeon.map.len(), 40);
    assert_eq!(dungeon.map[0].len(), 60);
}

#[test]
fn test_min_room_size_greater_than_max_room_size() {
    let result = DungeonConfigBuilder::new()
        .build_algorithm(BinaryPartitionBuilder)
        .room_size(RoomSize { min_room_size: 10, max_room_size: 5 })
        .build();

    assert!(matches!(result, Err(DungeonBuildError::InvalidRoomSize(_))));
}

#[test]
fn test_zero_width() {
    let result = DungeonConfigBuilder::new()
        .build_algorithm(BinaryPartitionBuilder)
        .dungeon_size(DungeonSize { width: 0, height: 50 })
        .build();

    assert!(matches!(result, Err(DungeonBuildError::InvalidSize(_))));
}

#[test]
fn test_zero_height() {
    let result = DungeonConfigBuilder::new()
        .build_algorithm(BinaryPartitionBuilder)
        .dungeon_size(DungeonSize { width: 50, height: 0 })
        .build();

    assert!(matches!(result, Err(DungeonBuildError::InvalidSize(_))));
}

#[test]
fn test_zero_min_room_size() {
    let result = DungeonConfigBuilder::new()
        .build_algorithm(BinaryPartitionBuilder)
        .room_size(RoomSize { min_room_size: 0, max_room_size: 5 })
        .build();

    assert!(matches!(result, Err(DungeonBuildError::InvalidRoomSize(_))));
}

#[test]
fn test_zero_max_room_size() {
    let result = DungeonConfigBuilder::new()
        .build_algorithm(BinaryPartitionBuilder)
        .room_size(RoomSize { min_room_size: 1, max_room_size: 0 })
        .build();

    assert!(matches!(result, Err(DungeonBuildError::InvalidRoomSize(_))));
}

#[test]
fn test_room_too_large_for_dungeon() {
    let result = DungeonConfigBuilder::new()
        .build_algorithm(BinaryPartitionBuilder)
        .dungeon_size(DungeonSize { width: 10, height: 10 })
        .room_size(RoomSize { min_room_size: 15, max_room_size: 16 })
        .build();

    assert!(matches!(result, Err(DungeonBuildError::RoomTooLargeForDungeon)));
}

#[test]
fn test_no_rooms_created_partition() {
    let result = DungeonConfigBuilder::new()
        .build_algorithm(BinaryPartitionBuilder)
        .dungeon_size(DungeonSize { width: 1, height: 1 })
        .room_size(RoomSize { min_room_size: 1, max_room_size: 2 })
        .build();
    assert!(matches!(result, Err(DungeonBuildError::NoRoomsCreated)));
}

#[test]
fn test_no_rooms_created_room_placement() {
    let result = DungeonConfigBuilder::new()
        .build_algorithm(RoomPlacementBuilder)
        .dungeon_size(DungeonSize { width: 5, height: 5 })
        .room_size(RoomSize { min_room_size: 4, max_room_size: 5 })
        .build();
    assert!(matches!(result, Err(DungeonBuildError::NoRoomsCreated)));
}

#[test]
fn test_disable_doors() {
    let dungeon = DungeonConfigBuilder::new()
        .build_algorithm(BinaryPartitionBuilder)
        .should_place_doors(false)
        .build()
        .expect("Failed to build dungeon");

    let door_count = dungeon
        .map
        .iter()
        .flatten()
        .filter(|&&tile| tile == TileType::Door)
        .count();
    assert_eq!(door_count, 0);
}

#[test]
fn test_room_placement_algorithm() {
    let dungeon = DungeonConfigBuilder::new()
        .build_algorithm(RoomPlacementBuilder)
        .build()
        .expect("Failed to build dungeon");
    assert!(!dungeon.map.is_empty());
}

fn count_tiles(map: &[Vec<TileType>], tile: TileType) -> usize {
    map.iter().flatten().filter(|&&t| t == tile).count()
}

/// Floor and door cells reachable from the first floor cell, over orthogonal steps.
fn reachable_from_first_floor(map: &[Vec<TileType>]) -> usize {
    let height = map.len();
    let width = map[0].len();
    let mut seen = vec![vec![false; width]; height];
    let mut stack = Vec::new();
    'outer: for (r, row) in map.iter().enumerate() {
        for (c, &t) in row.iter().enumerate() {
            if t == TileType::Floor {
                stack.push((r, c));
                seen[r][c] = true;
                break 'outer;
            }
        }
    }
    let mut count = 0;
    while let Some((r, c)) = stack.pop() {
        count += 1;
        let mut next = Vec::new();
        if r > 0 {
            next.push((r - 1, c));
        }
        if r + 1 < height {
            next.push((r + 1, c));
        }
        if c > 0 {
            next.push((r, c - 1));
        }
        if c + 1 < width {
            next.push((r, c + 1));
        }
        for (nr, nc) in next {
            if !seen[nr][nc] && map[nr][nc] != TileType::Wall {
                seen[nr][nc] = true;
                stack.push((nr, nc));
            }
        }
    }
    count
}

#[test]
fn texture_indices_are_stable() {
    assert_eq!(TileType::Door.texture_index(), 1);
    assert_eq!(TileType::Wall.texture_index(), 4);
    assert_eq!(TileType::Floor.texture_index(), 5);
}

#[test]
fn missing_strategy_is_reported_first() {
    let result = DungeonConfigBuilder::<BinaryPartitionBuilder>::new()
        .dungeon_size(DungeonSize { width: 0, height: 0 })
        .build();
    assert!(matches!(result, Err(DungeonBuildError::NoStrategySelected)));
}

#[test]
fn size_error_comes_before_room_size_error() {
    let result = DungeonConfigBuilder::new()
        .build_algorithm(RoomPlacementBuilder)
        .dungeon_size(DungeonSize { width: 0, height: 10 })
        .room_size(RoomSize { min_room_size: 0, max_room_size: 0 })
        .build();
    assert!(matches!(result, Err(DungeonBuildError::InvalidSize(_))));
}

#[test]
fn room_too_large_for_height_only() {
    let result = DungeonConfigBuilder::new()
        .build_algorithm(BinaryPartitionBuilder)
        .dungeon_size(DungeonSize { width: 40, height: 6 })
        .room_size(RoomSize { min_room_size: 7, max_room_size: 9 })
        .build();
    assert!(matches!(result, Err(DungeonBuildError::RoomTooLargeForDungeon)));
}

#[test]
fn validation_gives_the_same_error_every_time() {
    for _ in 0..20 {
        let result = DungeonConfigBuilder::new()
            .build_algorithm(BinaryPartitionBuilder)
            .room_size(RoomSize { min_room_size: 10, max_room_size: 5 })
            .build();
        assert!(matches!(result, Err(DungeonBuildError::InvalidRoomSize(_))));
        let result = DungeonConfigBuilder::new()
            .build_algorithm(RoomPlacementBuilder)
            .dungeon_size(DungeonSize { width: 10, height: 10 })
            .room_size(RoomSize { min_room_size: 15, max_room_size: 16 })
            .build();
        assert!(matches!(result, Err(DungeonBuildError::RoomTooLargeForDungeon)));
    }
}

#[test]
fn validators_accept_and_reject() {
    assert!(DungeonSize { width: 1, height: 1 }.validate().is_ok());
    assert!(matches!(
        DungeonSize { width: 3, height: 0 }.validate(),
        Err(DungeonBuildError::InvalidSize(_))
    ));
    assert!(RoomSize { min_room_size: 3, max_room_size: 3 }.validate().is_ok());
    assert!(matches!(
        RoomSize { min_room_size: 4, max_room_size: 3 }.validate(),
        Err(DungeonBuildError::InvalidRoomSize(_))
    ));
    let size = DungeonSize { width: 8, height: 9 };
    assert!(size.validate_room_size(&RoomSize { min_room_size: 8, max_room_size: 20 }).is_ok());
    assert!(matches!(
        size.validate_room_size(&RoomSize { min_room_size: 9, max_room_size: 20 }),
        Err(DungeonBuildError::RoomTooLargeForDungeon)
    ));
}

#[test]
fn default_configuration_values() {
    let config = DungeonBuildConfig::default();
    assert_eq!(config.dungeon_size.width, 32);
    assert_eq!(config.dungeon_size.height, 32);
    assert_eq!(config.room_size.min_room_size, 5);
    assert_eq!(config.room_size.max_room_size, 10);
    assert!(!config.should_place_doors);
}

#[test]
fn error_descriptions() {
    assert_eq!(
        DungeonBuildError::InvalidSize("bad".to_owned()).description(),
        "bad"
    );
    assert_eq!(
        DungeonBuildError::NoRoomsCreated.description(),
        "No room was created, check configurations or try one more time"
    );
}

#[test]
fn partition_succeeds_when_sides_exceed_min_room_size() {
    for _ in 0..20 {
        let result = DungeonConfigBuilder::new()
            .build_algorithm(BinaryPartitionBuilder)
            .dungeon_size(DungeonSize { width: 6, height: 6 })
            .room_size(RoomSize { min_room_size: 5, max_room_size: 5 })
            .build();
        let dungeon = result.expect("a 6 by 6 dungeon holds a 5 by 5 room");
        assert_eq!(count_tiles(&dungeon.map, TileType::Floor), 25);
    }
}

#[test]
fn partition_fails_when_a_side_equals_min_room_size() {
    let result = DungeonConfigBuilder::new()
        .build_algorithm(BinaryPartitionBuilder)
        .dungeon_size(DungeonSize { width: 5, height: 30 })
        .room_size(RoomSize { min_room_size: 5, max_room_size: 8 })
        .build();
    assert!(matches!(result, Err(DungeonBuildError::NoRoomsCreated)));
}

#[test]
fn room_placement_fails_without_margin() {
    let result = DungeonConfigBuilder::new()
        .build_algorithm(RoomPlacementBuilder)
        .dungeon_size(DungeonSize { width: 2, height: 2 })
        .room_size(RoomSize { min_room_size: 1, max_room_size: 1 })
        .build();
    assert!(matches!(result, Err(DungeonBuildError::NoRoomsCreated)));
}

#[test]
fn grids_have_configured_shape_for_both_strategies() {
    for &(w, h) in &[(32usize, 32usize), (60, 40), (17, 45)] {
        for doors in [false, true] {
            let d = DungeonConfigBuilder::new()
                .build_algorithm(BinaryPartitionBuilder)
                .dungeon_size(DungeonSize { width: w, height: h })
                .should_place_doors(doors)
                .build()
                .expect("partition build");
            assert_eq!(d.map.len(), h);
            assert!(d.map.iter().all(|row| row.len() == w));
            let d = DungeonConfigBuilder::new()
                .build_algorithm(RoomPlacementBuilder)
                .dungeon_size(DungeonSize { width: w, height: h })
                .room_size(RoomSize { min_room_size: 3, max_room_size: 6 })
                .should_place_doors(doors)
                .build();
            if let Ok(d) = d {
                assert_eq!(d.map.len(), h);
                assert!(d.map.iter().all(|row| row.len() == w));
            }
        }
    }
}

#[test]
fn no_doors_unless_requested_for_room_placement() {
    for _ in 0..10 {
        if let Ok(d) = DungeonConfigBuilder::new()
            .build_algorithm(RoomPlacementBuilder)
            .build()
        {
            assert_eq!(count_tiles(&d.map, TileType::Door), 0);
        }
    }
}

#[test]
fn all_floor_is_connected_for_both_strategies() {
    for _ in 0..10 {
        let d = DungeonConfigBuilder::new()
            .build_algorithm(BinaryPartitionBuilder)
            .dungeon_size(DungeonSize { width: 60, height: 40 })
            .build()
            .expect("partition build");
        assert_eq!(reachable_from_first_floor(&d.map), count_tiles(&d.map, TileType::Floor));
        if let Ok(d) = DungeonConfigBuilder::new()
            .build_algorithm(RoomPlacementBuilder)
            .dungeon_size(DungeonSize { width: 60, height: 40 })
            .room_size(RoomSize { min_room_size: 4, max_room_size: 7 })
            .build()
        {
            assert_eq!(reachable_from_first_floor(&d.map), count_tiles(&d.map, TileType::Floor));
        }
    }
}

#[test]
fn strategies_can_be_called_directly() {
    let config = DungeonBuildConfig {
        dungeon_size: DungeonSize { width: 20, height: 12 },
        room_size: RoomSize { min_room_size: 3, max_room_size: 5 },
        should_place_doors: true,
    };
    let d = BinaryPartitionBuilder.build(config).expect("partition build");
    assert_eq!(d.map.len(), 12);
    assert_eq!(d.map[0].len(), 20);
}

#[test]
fn room_placement_succeeds_when_largest_room_fits() {
    for _ in 0..20 {
        let d = DungeonConfigBuilder::new()
            .build_algorithm(RoomPlacementBuilder)
            .dungeon_size(DungeonSize { width: 8, height: 8 })
            .room_size(RoomSize { min_room_size: 2, max_room_size: 5 })
            .build()
            .expect("a 5 by 5 room always fits an 8 by 8 dungeon");
        assert_eq!(d.map.len(), 8);
        assert!(count_tiles(&d.map, TileType::Floor) >= 4);
    }
}

fn floor_neighbours(map: &[Vec<TileType>], r: usize, c: usize) -> usize {
    [(r - 1, c), (r + 1, c), (r, c - 1), (r, c + 1)]
        .iter()
        .filter(|&&(nr, nc)| map[nr][nc] == TileType::Floor)
        .count()
}

#[test]
fn door_rule_holds_on_partition_output() {
    for _ in 0..10 {
        let d = DungeonConfigBuilder::new()
            .build_algorithm(BinaryPartitionBuilder)
            .dungeon_size(DungeonSize { width: 40, height: 30 })
            .should_place_doors(true)
            .build()
            .expect("partition build");
        let (h, w) = (d.map.len(), d.map[0].len());
        for r in 0..h {
            for c in 0..w {
                let interior = r > 0 && r + 1 < h && c > 0 && c + 1 < w;
                if d.map[r][c] == TileType::Door {
                    assert!(interior && floor_neighbours(&d.map, r, c) >= 2);
                }
                if interior && d.map[r][c] == TileType::Wall {
                    assert!(floor_neighbours(&d.map, r, c) < 2);
                }
            }
        }
    }
}

#[test]
fn room_placement_keeps_border_walls() {
    for doors in [false, true] {
        for _ in 0..10 {
            let d = DungeonConfigBuilder::new()
                .build_algorithm(RoomPlacementBuilder)
                .dungeon_size(DungeonSize { width: 30, height: 20 })
                .room_size(RoomSize { min_room_size: 3, max_room_size: 6 })
                .should_place_doors(doors)
                .build()
                .expect("a 6 by 6 room always fits a 30 by 20 dungeon");
            let (h, w) = (d.map.len(), d.map[0].len());
            for r in 0..h {
                for c in 0..w {
                    if r == 0 || c == 0 || r == h - 1 || c == w - 1 {
                        assert_eq!(d.map[r][c], TileType::Wall);
                    }
                }
            }
        }
    }
}

#[test]
fn room_placement_fails_when_budget_is_zero() {
    let result = DungeonConfigBuilder::new()
        .build_algorithm(RoomPlacementBuilder)
        .dungeon_size(DungeonSize { width: 9, height: 9 })
        .room_size(RoomSize { min_room_size: 2, max_room_size: 41 })
        .build();
    assert!(matches!(result, Err(DungeonBuildError::NoRoomsCreated)));
}
