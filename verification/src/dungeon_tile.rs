//! The things a tile of a floor can be.

use vstd::prelude::*;

verus! {

/// What a tile of a floor holds.
///
/// These are the features of the map itself. Players and mobs interact with
/// the tiles, but are no tiles themselves.
#[derive(Debug, Clone, Copy, Eq)]
pub enum DungeonTile {
    /// Empty space. Traversable.
    Empty,
    /// Solid wall. Not traversable.
    Wall,
    /// A secret door to a secret passageway.
    SecretDoor {
        /// Whether the door takes a key to open.
        requires_key: bool,
        /// Whether the door is open. All doors start off closed.
        is_open: bool,
    },
    /// A secret passageway between two secret doors.
    SecretPassage,
    /// A treasure chest.
    TreasureChest {
        /// What the chest holds.
        contents: (),
    },
    /// The way into the floor.
    Entrance,
    /// The way out of the floor.
    Exit,
}

impl PartialEq for DungeonTile {
    fn eq(&self, other: &Self) -> (r: bool) {
        match (*self, *other) {
            (DungeonTile::Empty, DungeonTile::Empty) => true,
            (DungeonTile::Wall, DungeonTile::Wall) => true,
            (
                DungeonTile::SecretDoor { requires_key: key, is_open: open },
                DungeonTile::SecretDoor { requires_key: other_key, is_open: other_open },
            ) => key == other_key && open == other_open,
            (DungeonTile::SecretPassage, DungeonTile::SecretPassage) => true,
            (DungeonTile::TreasureChest { .. }, DungeonTile::TreasureChest { .. }) => true,
            (DungeonTile::Entrance, DungeonTile::Entrance) => true,
            (DungeonTile::Exit, DungeonTile::Exit) => true,
            _ => false,
        }
    }
}

impl vstd::std_specs::cmp::PartialEqSpecImpl for DungeonTile {
    open spec fn obeys_eq_spec() -> bool {
        true
    }

    open spec fn eq_spec(&self, other: &Self) -> bool {
        *self == *other
    }
}

/// The colours of the tiles, three bytes each, in the order of
/// [`DungeonTile::as_u8`].
pub const COLOR_MAP: [u8; 21] = [
    0xFF, 0xFF, 0xFF,
    0x00, 0x00, 0x00,
    0xFF, 0x00, 0x00,
    0x00, 0xFF, 0x00,
    0x00, 0x00, 0xFF,
    0xFF, 0x00, 0xFF,
    0xAA, 0x40, 0x00,
];

impl DungeonTile {
    /// Whether the tile stops movement: walls and treasure chests do.
    pub open spec fn solid(self) -> bool {
        self is Wall || self is TreasureChest
    }

    /// The index of the tile's colour. Anything that a variant carries is
    /// left out.
    #[must_use]
    pub fn as_u8(&self) -> (r: u8)
        ensures
            r == match *self {
                DungeonTile::Empty => 0u8,
                DungeonTile::Wall => 1u8,
                DungeonTile::SecretDoor { .. } => 2u8,
                DungeonTile::SecretPassage => 3u8,
                DungeonTile::TreasureChest { .. } => 4u8,
                DungeonTile::Entrance => 5u8,
                DungeonTile::Exit => 6u8,
            },
    {
        match self {
            DungeonTile::Empty => 0,
            DungeonTile::Wall => 1,
            DungeonTile::SecretDoor { .. } => 2,
            DungeonTile::SecretPassage => 3,
            DungeonTile::TreasureChest { .. } => 4,
            DungeonTile::Entrance => 5,
            DungeonTile::Exit => 6,
        }
    }

    /// Whether `self` is [`DungeonTile::Empty`].
    #[must_use]
    pub fn is_empty(self) -> (r: bool)
        ensures
            r == (self is Empty),
    {
        matches!(self, DungeonTile::Empty)
    }

    /// Whether `self` is [`DungeonTile::Wall`].
    #[must_use]
    pub fn is_wall(self) -> (r: bool)
        ensures
            r == (self is Wall),
    {
        matches!(self, DungeonTile::Wall)
    }

    /// Whether `self` is [`DungeonTile::SecretDoor`].
    #[must_use]
    pub fn is_secret_door(self) -> (r: bool)
        ensures
            r == (self is SecretDoor),
    {
        matches!(self, DungeonTile::SecretDoor { .. })
    }

    /// Whether `self` is [`DungeonTile::SecretPassage`].
    #[must_use]
    pub fn is_secret_passage(self) -> (r: bool)
        ensures
            r == (self is SecretPassage),
    {
        matches!(self, DungeonTile::SecretPassage)
    }

    /// Whether `self` is [`DungeonTile::TreasureChest`].
    #[must_use]
    pub fn is_treasure_chest(self) -> (r: bool)
        ensures
            r == (self is TreasureChest),
    {
        matches!(self, DungeonTile::TreasureChest { .. })
    }

    /// Whether `self` is [`DungeonTile::Entrance`].
    #[must_use]
    pub fn is_entrance(self) -> (r: bool)
        ensures
            r == (self is Entrance),
    {
        matches!(self, DungeonTile::Entrance)
    }

    /// Whether `self` is [`DungeonTile::Exit`].
    #[must_use]
    pub fn is_exit(self) -> (r: bool)
        ensures
            r == (self is Exit),
    {
        matches!(self, DungeonTile::Exit)
    }

    /// Whether the tile stops movement.
    #[must_use]
    pub fn is_solid(self) -> (r: bool)
        ensures
            r == self.solid(),
    {
        matches!(self, DungeonTile::Wall | DungeonTile::TreasureChest { .. })
    }
}

impl Default for DungeonTile {
    fn default() -> (r: Self)
        ensures
            r == DungeonTile::Empty,
    {
        DungeonTile::Empty
    }
}

} // verus!
