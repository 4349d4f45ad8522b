use game::cell::{BaseTerrain, Cell, CellAnimation, CellContent, EncodedCellValue, Team};

#[test]
fn test_new_cell() {
    let base = BaseTerrain::Floor;
    let position = (10, 20);
    let cell = Cell::new(base, position);

    assert_eq!(cell.position, position);
    assert_eq!(cell.base, base);
    assert!(cell.content.is_none());
    assert!(cell.animation.is_none());
}

#[test]
fn test_is_passable() {
    let dummy_position = (0, 0);

    let floor_cell = Cell::new(BaseTerrain::Floor, dummy_position);
    assert!(floor_cell.is_passable(), "Floor with no content should be passable");

    let floor_with_content = Cell {
        position: dummy_position,
        base: BaseTerrain::Floor,
        content: Some(CellContent::Champion(1, Team::Red)),
        animation: None,
    };
    assert!(!floor_with_content.is_passable(), "Floor with content should not be passable");

    let wall_cell = Cell::new(BaseTerrain::Wall, dummy_position);
    assert!(!wall_cell.is_passable(), "Wall should not be passable");

    let wall_with_content = Cell {
        position: dummy_position,
        base: BaseTerrain::Wall,
        content: Some(CellContent::Champion(1, Team::Red)),
        animation: None,
    };
    assert!(!wall_with_content.is_passable(), "Wall with content should not be passable");

    let bush_cell = Cell::new(BaseTerrain::Bush, dummy_position);
    assert!(bush_cell.is_passable(), "Bush with no content should be passable");

    let bush_with_content = Cell {
        position: dummy_position,
        base: BaseTerrain::Bush,
        content: Some(CellContent::Champion(1, Team::Red)),
        animation: None,
    };
    assert!(!bush_with_content.is_passable(), "Bush with content should not be passable");

    let tower_destroyed_cell = Cell::new(BaseTerrain::TowerDestroyed, dummy_position);
    assert!(!tower_destroyed_cell.is_passable(), "TowerDestroyed should not be passable");

    let tower_destroyed_with_content = Cell {
        position: dummy_position,
        base: BaseTerrain::TowerDestroyed,
        content: Some(CellContent::Champion(1, Team::Red)),
        animation: None,
    };
    assert!(
        !tower_destroyed_with_content.is_passable(),
        "TowerDestroyed with content should not be passable"
    );
}

#[test]
fn test_encoded_cell_value_from_cell() {
    let dummy_position = (0, 0);

    let wall_cell = Cell::new(BaseTerrain::Wall, dummy_position);
    assert_eq!(EncodedCellValue::from(&wall_cell), EncodedCellValue::Wall);

    let floor_cell = Cell::new(BaseTerrain::Floor, dummy_position);
    assert_eq!(EncodedCellValue::from(&floor_cell), EncodedCellValue::Floor);

    let bush_cell = Cell::new(BaseTerrain::Bush, dummy_position);
    assert_eq!(EncodedCellValue::from(&bush_cell), EncodedCellValue::Bush);

    let tower_destroyed_cell = Cell::new(BaseTerrain::TowerDestroyed, dummy_position);
    assert_eq!(EncodedCellValue::from(&tower_destroyed_cell), EncodedCellValue::TowerDestroyed);

    let champion_cell = Cell {
        position: dummy_position,
        base: BaseTerrain::Floor,
        content: Some(CellContent::Champion(1, Team::Red)),
        animation: None,
    };
    assert_eq!(EncodedCellValue::from(&champion_cell), EncodedCellValue::Champion);

    let minion_cell = Cell {
        position: dummy_position,
        base: BaseTerrain::Wall,
        content: Some(CellContent::Minion(1, Team::Red)),
        animation: None,
    };
    assert_eq!(EncodedCellValue::from(&minion_cell), EncodedCellValue::MinionRed);

    let flag_cell = Cell {
        position: dummy_position,
        base: BaseTerrain::Bush,
        content: Some(CellContent::Flag(1, Team::Red)),
        animation: None,
    };
    assert_eq!(EncodedCellValue::from(&flag_cell), EncodedCellValue::Flag);

    let tower_cell = Cell {
        position: dummy_position,
        base: BaseTerrain::TowerDestroyed,
        content: Some(CellContent::Tower(1, Team::Red)),
        animation: None,
    };
    assert_eq!(EncodedCellValue::from(&tower_cell), EncodedCellValue::Tower);

    let melee_animation_cell = Cell {
        position: dummy_position,
        base: BaseTerrain::Floor,
        content: Some(CellContent::Champion(1, Team::Red)),
        animation: Some(CellAnimation::MeleeHit),
    };
    assert_eq!(EncodedCellValue::from(&melee_animation_cell), EncodedCellValue::MeleeHitAnimation);

    let tower_hit_animation_cell = Cell {
        position: dummy_position,
        base: BaseTerrain::Wall,
        content: None,
        animation: Some(CellAnimation::TowerHit),
    };
    assert_eq!(EncodedCellValue::from(&tower_hit_animation_cell), EncodedCellValue::TowerHitAnimation);
}

#[test]
fn encoded_codes_follow_the_wire_table() {
    assert_eq!(EncodedCellValue::Wall.code(), 0);
    assert_eq!(EncodedCellValue::TowerDestroyed.code(), 3);
    assert_eq!(EncodedCellValue::Champion.code(), 4);
    assert_eq!(EncodedCellValue::MinionBlue.code(), 5);
    assert_eq!(EncodedCellValue::MinionRed.code(), 6);
    assert_eq!(EncodedCellValue::Tower.code(), 8);
    assert_eq!(EncodedCellValue::MeleeHitAnimation.code(), 9);
    assert_eq!(EncodedCellValue::TowerHitAnimation.code(), 10);
    assert_eq!(EncodedCellValue::ProjectileAnimation.code(), 11);
    assert_eq!(EncodedCellValue::Base.code(), 12);
    assert_eq!(EncodedCellValue::Monster.code(), 13);
}

#[test]
fn base_and_monster_cells_encode() {
    let base_cell = Cell {
        position: (0, 0),
        base: BaseTerrain::Floor,
        content: Some(CellContent::Base(Team::Blue)),
        animation: None,
    };
    assert_eq!(EncodedCellValue::of_cell(&base_cell), EncodedCellValue::Base);
    let monster_cell = Cell {
        position: (0, 0),
        base: BaseTerrain::Floor,
        content: Some(CellContent::Monster(3)),
        animation: None,
    };
    assert_eq!(EncodedCellValue::of_cell(&monster_cell), EncodedCellValue::Monster);
    let blue_minion = Cell {
        position: (0, 0),
        base: BaseTerrain::Floor,
        content: Some(CellContent::Minion(2, Team::Blue)),
        animation: None,
    };
    assert_eq!(EncodedCellValue::of_cell(&blue_minion), EncodedCellValue::MinionBlue);
}

#[test]
fn wall_is_never_passable_with_any_content() {
    let contents = vec![
        CellContent::Champion(1, Team::Blue),
        CellContent::Minion(1, Team::Red),
        CellContent::Flag(1, Team::Blue),
        CellContent::Tower(1, Team::Red),
        CellContent::Base(Team::Blue),
        CellContent::Monster(1),
    ];
    for c in contents {
        let cell = Cell { position: (0, 0), base: BaseTerrain::Wall, content: Some(c), animation: None };
        assert!(!cell.is_passable());
    }
    assert!(!Cell::new(BaseTerrain::Wall, (3, 4)).is_passable());
}

#[test]
fn team_opponent_swaps() {
    assert_eq!(Team::Blue.opponent(), Team::Red);
    assert_eq!(Team::Red.opponent(), Team::Blue);
}
