use vstd::prelude::*;

verus! {

/// A generation strategy: turns a validated configuration into a grid.
pub trait DungeonBuilder: Sized {
    fn build(self, build_config: DungeonBuildConfig) -> (r: Result<Dungeon, DungeonBuildError>)
        requires
            build_config.is_valid(),
        ensures
            r is Ok ==> r->Ok_0.fits(build_config),
    ;
}

/// The kind of a grid cell.
#[derive(Debug, Copy, Clone, PartialEq, Eq, Structural)]
pub enum TileType {
    Door,
    Wall,
    Floor,
}

impl TileType {
    /// The stable numeric identity of the tile (used, for instance, as a
    /// texture index): `Door` is 1, `Wall` is 4, `Floor` is 5.
    pub fn texture_index(&self) -> (r: u32)
        ensures
            r == match *self {
                TileType::Door => 1u32,
                TileType::Wall => 4u32,
                TileType::Floor => 5u32,
            },
    {
        match self {
            TileType::Door => 1,
            TileType::Wall => 4,
            TileType::Floor => 5,
        }
    }
}

/// A generated dungeon: `map[row][column]`.
#[derive(Debug, Clone)]
pub struct Dungeon {
    pub map: Vec<Vec<TileType>>,
}

/// `map` has exactly `height` rows of exactly `width` cells each.
pub open spec fn has_shape(map: Seq<Vec<TileType>>, width: int, height: int) -> bool {
    &&& map.len() == height
    &&& forall|row: int| 0 <= row < height ==> (#[trigger] map[row])@.len() == width
}

/// The cell at `(row, col)` of a grid.
pub open spec fn cell(map: Seq<Vec<TileType>>, row: int, col: int) -> TileType {
    map[row]@[col]
}

/// No cell of `map` is a door.
pub open spec fn has_no_doors(map: Seq<Vec<TileType>>) -> bool {
    forall|row: int, col: int|
        0 <= row < map.len() && 0 <= col < map[row]@.len() ==> cell(map, row, col)
            != TileType::Door
}

impl Dungeon {
    /// The grid has the configured size, and holds no door unless doors were asked for.
    pub open spec fn fits(&self, config: DungeonBuildConfig) -> bool {
        &&& has_shape(
            self.map@,
            config.dungeon_size.width as int,
            config.dungeon_size.height as int,
        )
        &&& !config.should_place_doors ==> has_no_doors(self.map@)
    }
}

/// Why a dungeon could not be built.
#[derive(Debug, Clone, PartialEq, Eq)]
pub enum DungeonBuildError {
    /// The dungeon's width or height is zero.
    InvalidSize(String),
    /// A room size bound is zero, or the minimum exceeds the maximum.
    InvalidRoomSize(String),
    /// The minimum room size exceeds a dimension of the dungeon.
    RoomTooLargeForDungeon,
    /// The strategy produced no room.
    NoRoomsCreated,
    /// No strategy was attached to the configuration builder.
    NoStrategySelected,
}

impl DungeonBuildError {
    /// A human-readable description of the error: the message carried by the
    /// variants that have one, a fixed sentence for the others.
    pub fn description(&self) -> (r: String)
        ensures
            self matches DungeonBuildError::InvalidSize(m) ==> r@ == m@,
            self matches DungeonBuildError::InvalidRoomSize(m) ==> r@ == m@,
            self is RoomTooLargeForDungeon ==> r@
                == "Dungeon map size should not be less than room size"@,
            self is NoRoomsCreated ==> r@
                == "No room was created, check configurations or try one more time"@,
            self is NoStrategySelected ==> r@ == "Provide build algorithm for dungeon generation"@,
    {
        match self {
            DungeonBuildError::InvalidSize(msg) => msg.clone(),
            DungeonBuildError::InvalidRoomSize(msg) => msg.clone(),
            DungeonBuildError::RoomTooLargeForDungeon => {
                "Dungeon map size should not be less than room size".to_owned()
            },
            DungeonBuildError::NoRoomsCreated => {
                "No room was created, check configurations or try one more time".to_owned()
            },
            DungeonBuildError::NoStrategySelected => {
                "Provide build algorithm for dungeon generation".to_owned()
            },
        }
    }
}

/// Two errors are of the same variant (their messages aside).
pub open spec fn same_variant(a: DungeonBuildError, b: DungeonBuildError) -> bool {
    match (a, b) {
        (DungeonBuildError::InvalidSize(_), DungeonBuildError::InvalidSize(_)) => true,
        (DungeonBuildError::InvalidRoomSize(_), DungeonBuildError::InvalidRoomSize(_)) => true,
        (DungeonBuildError::RoomTooLargeForDungeon, DungeonBuildError::RoomTooLargeForDungeon) => true,
        (DungeonBuildError::NoRoomsCreated, DungeonBuildError::NoRoomsCreated) => true,
        (DungeonBuildError::NoStrategySelected, DungeonBuildError::NoStrategySelected) => true,
        _ => false,
    }
}

#[derive(Debug, Copy, Clone)]
pub struct DungeonSize {
    pub width: usize,
    pub height: usize,
}

impl DungeonSize {
    pub open spec fn is_valid(&self) -> bool {
        self.width > 0 && self.height > 0
    }

    /// A room of at least `room_size.min_room_size` fits along both dimensions.
    pub open spec fn admits(&self, room_size: RoomSize) -> bool {
        room_size.min_room_size <= self.width && room_size.min_room_size <= self.height
    }

    pub fn validate(&self) -> (r: Result<(), DungeonBuildError>)
        ensures
            r is Ok <==> self.is_valid(),
            r is Err ==> r->Err_0 is InvalidSize,
    {
        if self.width == 0 || self.height == 0 {
            return Err(DungeonBuildError::InvalidSize("Width and height must be greater than 0".to_owned()));
        }
        Ok(())
    }

    pub fn validate_room_size(&self, room_size: &RoomSize) -> (r: Result<(), DungeonBuildError>)
        ensures
            r is Ok <==> self.admits(*room_size),
            r is Err ==> r->Err_0 is RoomTooLargeForDungeon,
    {
        if room_size.min_room_size > self.width || room_size.min_room_size > self.height {
            return Err(DungeonBuildError::RoomTooLargeForDungeon);
        }
        Ok(())
    }
}

#[derive(Debug, Copy, Clone)]
pub struct RoomSize {
    pub min_room_size: usize,
    pub max_room_size: usize,
}

impl RoomSize {
    pub open spec fn is_valid(&self) -> bool {
        0 < self.min_room_size <= self.max_room_size
    }

    pub fn validate(&self) -> (r: Result<(), DungeonBuildError>)
        ensures
            r is Ok <==> self.is_valid(),
            r is Err ==> r->Err_0 is InvalidRoomSize,
    {
        if self.min_room_size == 0 || self.max_room_size == 0 {
            return Err(DungeonBuildError::InvalidRoomSize("Room size must be greater than 0".to_owned()));
        }
        if self.min_room_size > self.max_room_size {
            return Err(
                DungeonBuildError::InvalidRoomSize(
                    "Room maximum size must be greater or equal to minimum size".to_owned(),
                ),
            );
        }
        Ok(())
    }
}

#[derive(Debug, Copy, Clone)]
pub struct DungeonBuildConfig {
    pub dungeon_size: DungeonSize,
    pub room_size: RoomSize,
    pub should_place_doors: bool,
}

impl DungeonBuildConfig {
    /// Every validation rule holds: this is what a strategy may assume.
    pub open spec fn is_valid(&self) -> bool {
        &&& self.dungeon_size.is_valid()
        &&& self.room_size.is_valid()
        &&& self.dungeon_size.admits(self.room_size)
    }
}

impl Default for DungeonBuildConfig {
    /// A 32 by 32 dungeon with rooms of 5 to 10 tiles and no doors.
    fn default() -> (r: Self)
        ensures
            r.dungeon_size.width == 32 && r.dungeon_size.height == 32,
            r.room_size.min_room_size == 5 && r.room_size.max_room_size == 10,
            !r.should_place_doors,
    {
        DungeonBuildConfig {
            dungeon_size: DungeonSize { width: 32, height: 32 },
            room_size: RoomSize { min_room_size: 5, max_room_size: 10 },
            should_place_doors: false,
        }
    }
}

/// Whether a build with this strategy presence and configuration gets past
/// validation. It depends on these two alone.
pub open spec fn passes_validation(has_algorithm: bool, config: DungeonBuildConfig) -> bool {
    has_algorithm && config.is_valid()
}

/// The error that validation gives for this strategy presence and
/// configuration, in the order: strategy, size, room size, room against dungeon.
pub open spec fn rejected_with(
    has_algorithm: bool,
    config: DungeonBuildConfig,
    e: DungeonBuildError,
) -> bool {
    if !has_algorithm {
        e is NoStrategySelected
    } else if !config.dungeon_size.is_valid() {
        e is InvalidSize
    } else if !config.room_size.is_valid() {
        e is InvalidRoomSize
    } else if !config.dungeon_size.admits(config.room_size) {
        e is RoomTooLargeForDungeon
    } else {
        false
    }
}

/// Validation never depends on chance: two builds with the same configuration
/// and the same strategy presence are both accepted, or both rejected with the
/// same error.
pub proof fn lemma_validation_is_deterministic(
    has_algorithm: bool,
    config: DungeonBuildConfig,
    e1: DungeonBuildError,
    e2: DungeonBuildError,
)
    requires
        rejected_with(has_algorithm, config, e1),
        rejected_with(has_algorithm, config, e2),
    ensures
        !passes_validation(has_algorithm, config),
        same_variant(e1, e2),
{
}

/// Assembles a configuration and a strategy, then validates and builds.
#[derive(Debug)]
pub struct DungeonConfigBuilder<BuilderAlgorithm> {
    dungeon_config: DungeonBuildConfig,
    build_algorithm: Option<BuilderAlgorithm>,
}

impl<BuilderAlgorithm: DungeonBuilder> DungeonConfigBuilder<BuilderAlgorithm> {
    pub closed spec fn config(&self) -> DungeonBuildConfig {
        self.dungeon_config
    }

    pub closed spec fn algorithm(&self) -> Option<BuilderAlgorithm> {
        self.build_algorithm
    }

    pub open spec fn has_algorithm(&self) -> bool {
        self.algorithm() is Some
    }

    /// The default configuration, with no strategy attached.
    pub fn new() -> (r: Self)
        ensures
            r.config().dungeon_size.width == 32 && r.config().dungeon_size.height == 32,
            r.config().room_size.min_room_size == 5 && r.config().room_size.max_room_size == 10,
            !r.config().should_place_doors,
            !r.has_algorithm(),
    {
        Self { dungeon_config: DungeonBuildConfig::default(), build_algorithm: None }
    }

    pub fn dungeon_size(self, dungeon_size: DungeonSize) -> (r: Self)
        ensures
            r.config() == (DungeonBuildConfig { dungeon_size, ..self.config() }),
            r.algorithm() == self.algorithm(),
    {
        let mut s = self;
        s.dungeon_config.dungeon_size = dungeon_size;
        s
    }

    pub fn room_size(self, room_size: RoomSize) -> (r: Self)
        ensures
            r.config() == (DungeonBuildConfig { room_size, ..self.config() }),
            r.algorithm() == self.algorithm(),
    {
        let mut s = self;
        s.dungeon_config.room_size = room_size;
        s
    }

    pub fn build_algorithm(self, build_algorithm: BuilderAlgorithm) -> (r: Self)
        ensures
            r.config() == self.config(),
            r.algorithm() == Some(build_algorithm),
    {
        let mut s = self;
        s.build_algorithm = Some(build_algorithm);
        s
    }

    pub fn should_place_doors(self, should_place_doors: bool) -> (r: Self)
        ensures
            r.config() == (DungeonBuildConfig { should_place_doors, ..self.config() }),
            r.algorithm() == self.algorithm(),
    {
        let mut s = self;
        s.dungeon_config.should_place_doors = should_place_doors;
        s
    }

    /// Validates the configuration, then runs the strategy on it.
    pub fn build(self) -> (r: Result<Dungeon, DungeonBuildError>)
        ensures
            !passes_validation(self.has_algorithm(), self.config()) ==> r is Err
                && rejected_with(self.has_algorithm(), self.config(), r->Err_0),
            r is Ok ==> passes_validation(self.has_algorithm(), self.config()) && r->Ok_0.fits(
                self.config(),
            ),
    {
        let build_algorithm = match self.build_algorithm {
            Some(a) => a,
            None => return Err(DungeonBuildError::NoStrategySelected),
        };
        let config = self.dungeon_config;
        match config.dungeon_size.validate() {
            Ok(()) => {},
            Err(e) => return Err(e),
        }
        match config.room_size.validate() {
            Ok(()) => {},
            Err(e) => return Err(e),
        }
        match config.dungeon_size.validate_room_size(&config.room_size) {
            Ok(()) => {},
            Err(e) => return Err(e),
        }
        build_algorithm.build(config)
    }
}

impl<BuilderAlgorithm: DungeonBuilder> Default for DungeonConfigBuilder<BuilderAlgorithm> {
    fn default() -> (r: Self)
        ensures
            r.config().dungeon_size.width == 32 && r.config().dungeon_size.height == 32,
            r.config().room_size.min_room_size == 5 && r.config().room_size.max_room_size == 10,
            !r.config().should_place_doors,
            !r.has_algorithm(),
    {
        Self::new()
    }
}

} // verus!
