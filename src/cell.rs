use vstd::prelude::*;

verus! {

pub type PlayerId = usize;

pub type MinionId = usize;

pub type FlagId = usize;

pub type TowerId = usize;

pub type MonsterId = usize;

#[derive(Debug, Clone, Copy, PartialEq, Eq, Structural)]
pub enum Team {
    Blue,
    Red,
}

impl Team {
    /// The other team.
    pub fn opponent(self) -> (r: Team)
        ensures
            r != self,
            r == self.opponent_spec(),
    {
        match self {
            Team::Blue => Team::Red,
            Team::Red => Team::Blue,
        }
    }
}

#[derive(Debug, Clone, Copy, PartialEq, Eq, Structural)]
pub enum BaseTerrain {
    Wall,
    Floor,
    Bush,
    TowerDestroyed,
}

/// What occupies a cell. A cell holds at most one of these.
#[derive(Debug, Clone, Copy, PartialEq, Eq, Structural)]
pub enum CellContent {
    Champion(PlayerId, Team),
    Minion(MinionId, Team),
    Flag(FlagId, Team),
    Tower(TowerId, Team),
    Base(Team),
    Monster(MonsterId),
}

#[derive(Debug, Clone, Copy, PartialEq, Eq, Structural)]
pub enum CellAnimation {
    MeleeHit,
    TowerHit,
    ProjectileTrail,
}

#[derive(Debug, Clone, Copy)]
pub struct Cell {
    pub position: (u16, u16),
    pub base: BaseTerrain,
    pub content: Option<CellContent>,
    pub animation: Option<CellAnimation>,
}

/// A cell can be entered iff its terrain is walkable and nothing occupies it.
pub open spec fn spec_passable(c: Cell) -> bool {
    match c.base {
        BaseTerrain::Wall | BaseTerrain::TowerDestroyed => false,
        BaseTerrain::Floor | BaseTerrain::Bush => c.content.is_none(),
    }
}

impl Cell {
    pub fn new(base: BaseTerrain, position: (u16, u16)) -> (r: Cell)
        ensures
            r.position == position,
            r.base == base,
            r.content.is_none(),
            r.animation.is_none(),
    {
        Cell { position, base, content: None, animation: None }
    }

    pub fn is_passable(&self) -> (r: bool)
        ensures
            r == spec_passable(*self),
    {
        match self.base {
            BaseTerrain::Wall => false,
            BaseTerrain::TowerDestroyed => false,
            BaseTerrain::Floor => self.content.is_none(),
            BaseTerrain::Bush => self.content.is_none(),
        }
    }
}

/// The value a cell takes in a board encoding: animation overlay first,
/// then content, then terrain.
#[derive(Debug, Clone, Copy, PartialEq, Eq, Structural)]
pub enum EncodedCellValue {
    Wall,
    Floor,
    Bush,
    TowerDestroyed,
    Champion,
    MinionBlue,
    MinionRed,
    Flag,
    Tower,
    MeleeHitAnimation,
    TowerHitAnimation,
    ProjectileAnimation,
    Base,
    Monster,
}

pub open spec fn spec_encode(c: Cell) -> EncodedCellValue {
    match c.animation {
        Some(CellAnimation::MeleeHit) => EncodedCellValue::MeleeHitAnimation,
        Some(CellAnimation::TowerHit) => EncodedCellValue::TowerHitAnimation,
        Some(CellAnimation::ProjectileTrail) => EncodedCellValue::ProjectileAnimation,
        None => match c.content {
            Some(CellContent::Champion(_, _)) => EncodedCellValue::Champion,
            Some(CellContent::Minion(_, Team::Blue)) => EncodedCellValue::MinionBlue,
            Some(CellContent::Minion(_, Team::Red)) => EncodedCellValue::MinionRed,
            Some(CellContent::Flag(_, _)) => EncodedCellValue::Flag,
            Some(CellContent::Tower(_, _)) => EncodedCellValue::Tower,
            Some(CellContent::Base(_)) => EncodedCellValue::Base,
            Some(CellContent::Monster(_)) => EncodedCellValue::Monster,
            None => match c.base {
                BaseTerrain::Wall => EncodedCellValue::Wall,
                BaseTerrain::Floor => EncodedCellValue::Floor,
                BaseTerrain::Bush => EncodedCellValue::Bush,
                BaseTerrain::TowerDestroyed => EncodedCellValue::TowerDestroyed,
            },
        },
    }
}

/// The wire byte of each encoded value: terrain 0-3, champion 4, minions by
/// team 5-6, flag 7, tower 8, animations 9-11, base 12, monster 13.
pub open spec fn spec_code(v: EncodedCellValue) -> u8 {
    match v {
        EncodedCellValue::Wall => 0,
        EncodedCellValue::Floor => 1,
        EncodedCellValue::Bush => 2,
        EncodedCellValue::TowerDestroyed => 3,
        EncodedCellValue::Champion => 4,
        EncodedCellValue::MinionBlue => 5,
        EncodedCellValue::MinionRed => 6,
        EncodedCellValue::Flag => 7,
        EncodedCellValue::Tower => 8,
        EncodedCellValue::MeleeHitAnimation => 9,
        EncodedCellValue::TowerHitAnimation => 10,
        EncodedCellValue::ProjectileAnimation => 11,
        EncodedCellValue::Base => 12,
        EncodedCellValue::Monster => 13,
    }
}

impl EncodedCellValue {
    pub fn code(self) -> (r: u8)
        ensures
            r == spec_code(self),
    {
        match self {
            EncodedCellValue::Wall => 0,
            EncodedCellValue::Floor => 1,
            EncodedCellValue::Bush => 2,
            EncodedCellValue::TowerDestroyed => 3,
            EncodedCellValue::Champion => 4,
            EncodedCellValue::MinionBlue => 5,
            EncodedCellValue::MinionRed => 6,
            EncodedCellValue::Flag => 7,
            EncodedCellValue::Tower => 8,
            EncodedCellValue::MeleeHitAnimation => 9,
            EncodedCellValue::TowerHitAnimation => 10,
            EncodedCellValue::ProjectileAnimation => 11,
            EncodedCellValue::Base => 12,
            EncodedCellValue::Monster => 13,
        }
    }

    pub fn of_cell(cell: &Cell) -> (r: EncodedCellValue)
        ensures
            r == spec_encode(*cell),
    {
        if let Some(animation) = &cell.animation {
            match animation {
                CellAnimation::MeleeHit => EncodedCellValue::MeleeHitAnimation,
                CellAnimation::TowerHit => EncodedCellValue::TowerHitAnimation,
                CellAnimation::ProjectileTrail => EncodedCellValue::ProjectileAnimation,
            }
        } else if let Some(content) = &cell.content {
            match content {
                CellContent::Champion(_, _) => EncodedCellValue::Champion,
                CellContent::Minion(_, team) => match team {
                    Team::Blue => EncodedCellValue::MinionBlue,
                    Team::Red => EncodedCellValue::MinionRed,
                },
                CellContent::Flag(_, _) => EncodedCellValue::Flag,
                CellContent::Tower(_, _) => EncodedCellValue::Tower,
                CellContent::Base(_) => EncodedCellValue::Base,
                CellContent::Monster(_) => EncodedCellValue::Monster,
            }
        } else {
            match cell.base {
                BaseTerrain::Wall => EncodedCellValue::Wall,
                BaseTerrain::Floor => EncodedCellValue::Floor,
                BaseTerrain::Bush => EncodedCellValue::Bush,
                BaseTerrain::TowerDestroyed => EncodedCellValue::TowerDestroyed,
            }
        }
    }
}

impl<'a> From<&'a Cell> for EncodedCellValue {
    fn from(cell: &'a Cell) -> (r: EncodedCellValue) {
        EncodedCellValue::of_cell(cell)
    }
}

impl<'a> vstd::std_specs::convert::FromSpecImpl<&'a Cell> for EncodedCellValue {
    open spec fn obeys_from_spec() -> bool {
        true
    }

    open spec fn from_spec(cell: &'a Cell) -> EncodedCellValue {
        spec_encode(*cell)
    }
}

/// A wall is never passable, whatever stands on it.
pub proof fn lemma_wall_never_passable(c: Cell)
    requires
        c.base == BaseTerrain::Wall,
    ensures
        !spec_passable(c),
{
}

} // verus!
