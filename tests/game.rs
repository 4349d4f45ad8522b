use game::animation::{advance_animations, Animation, AnimationCommand};
use game::board::Board;
use game::cell::{BaseTerrain, CellAnimation, CellContent, Team};
use game::entities::{
    action_from_code, decay_buffs, Action, Buff, BuffKind, Champion, ChampionStats, GameplayEffect,
    MinionStats, MonsterStats, Spell, SpellKind, Target, Tower, TowerStats,
};
use game::errors::GameError;
use game::game::{
    apply_to_tower, distribute_minion_xp, take_action, GameConfig, GameManager, MapLayout,
    MatchState, TickOutcome,
};
use game::projectile::ProjectileManager;

fn champion_stats() -> ChampionStats {
    ChampionStats { max_health: 100, max_mana: 50, attack_damage: 10, attack_range: 1, attack_cooldown: 2 }
}

fn tower_stats() -> TowerStats {
    TowerStats { max_health: 30, attack_damage: 5, attack_range: 3, attack_cooldown: 3, projectile_speed: 1 }
}

fn config(max_players: usize) -> GameConfig {
    GameConfig {
        max_players,
        champion: champion_stats(),
        tower: tower_stats(),
        base_health: 50,
        minion: MinionStats { max_health: 20, attack_damage: 2, attack_cooldown: 1 },
        minions_per_wave: 1,
        wave_interval_ms: 30_000,
        first_wave_delay_ms: 30_000,
        monster: MonsterStats {
            max_health: 40,
            attack_damage: 3,
            attack_cooldown: 2,
            aggro_range: 2,
            xp_reward: 10,
        },
        monster_spawn_delay_ms: 5_000,
        spells: vec![
            Spell { id: 1, kind: SpellKind::Heal { amount: 20 }, mana_cost: 10 },
            Spell { id: 2, kind: SpellKind::Empower { bonus: 5, ticks: 2 }, mana_cost: 10 },
        ],
    }
}

fn layout() -> MapLayout {
    MapLayout {
        tower_places: vec![(2, 8)],
        blue_base: (9, 9),
        red_base: (0, 0),
        blue_spawn: (11, 0),
        red_spawn: (0, 11),
        lane: vec![(10, 1), (6, 6), (1, 10)],
        camps: vec![(6, 0)],
    }
}

fn floor_board(rows: usize, cols: usize) -> Board {
    Board::new(rows, cols, &vec![BaseTerrain::Floor; rows * cols])
}

fn started_game() -> GameManager {
    let mut gm = GameManager::new(config(1), layout(), floor_board(12, 12)).unwrap();
    assert_eq!(gm.add_player(1, 2, 0), Some(1));
    gm
}

#[test]
fn new_places_towers_and_bases() {
    let gm = GameManager::new(config(2), layout(), floor_board(12, 12)).unwrap();
    assert_eq!(gm.state, MatchState::NotStarted);
    assert_eq!(gm.towers.len(), 2);
    assert_eq!(gm.red_base.health, 50);
    assert!(matches!(gm.board.get_cell(2, 8).unwrap().content, Some(CellContent::Tower(_, Team::Blue))));
    assert!(matches!(gm.board.get_cell(8, 2).unwrap().content, Some(CellContent::Tower(_, Team::Red))));
    assert_eq!(gm.board.get_cell(1, 1).unwrap().content, Some(CellContent::Base(Team::Red)));
    assert_eq!(gm.board.get_cell(11, 11).unwrap().content, Some(CellContent::Base(Team::Blue)));
}

#[test]
fn new_rejects_layout_off_the_board() {
    let r = GameManager::new(config(2), layout(), floor_board(8, 8));
    assert!(matches!(r, Err(GameError::NotFoundCell)));
}

#[test]
fn match_starts_when_seats_are_full() {
    let mut gm = GameManager::new(config(2), layout(), floor_board(12, 12)).unwrap();
    assert!(matches!(gm.game_tick(0), TickOutcome::Idle));
    assert_eq!(gm.add_player(1, 2, 100), Some(1));
    assert!(!gm.game_started());
    assert_eq!(gm.add_player(2, 9, 100), Some(2));
    assert!(gm.game_started());
    assert_eq!(gm.add_player(1, 2, 100), None);
    assert_eq!(gm.champions[0].team, Team::Blue);
    assert_eq!(gm.champions[1].team, Team::Blue);
    assert_eq!((gm.champions[1].row, gm.champions[1].col), (11, 0));
    assert_eq!(gm.champions[0].spells.len(), 2);
    assert_eq!(gm.champions[1].spells.len(), 1);
}

#[test]
fn leaving_stops_the_match_and_removes_the_champion() {
    let mut gm = started_game();
    gm.store_player_action(1, 1);
    gm.remove_player(&1);
    assert_eq!(gm.players_count, 0);
    assert_eq!(gm.state, MatchState::NotStarted);
    assert!(gm.champions.is_empty());
    assert!(gm.board.get_cell(11, 0).unwrap().content.is_none());
    assert!(gm.player_action.is_empty());
}

#[test]
fn leaving_after_the_end_keeps_the_match_ended() {
    let mut gm = started_game();
    gm.red_base.health = 0;
    assert!(matches!(gm.game_tick(0), TickOutcome::MatchEnd(Team::Blue)));
    gm.remove_player(&1);
    assert_eq!(gm.players_count, 0);
    assert!(gm.champions.is_empty());
    assert_eq!(gm.state, MatchState::Ended(Team::Blue));
}

#[test]
fn base_already_down_decides_over_one_falling_during_the_tick() {
    let mut gm = started_game();
    gm.board.clear_cell(11, 0);
    gm.champions[0].row = 3;
    gm.champions[0].col = 0;
    gm.board.place_cell(CellContent::Champion(1, Team::Blue), 3, 0);
    gm.red_base.health = 5;
    gm.blue_base.health = 0;
    let out = gm.game_tick(0);
    assert_eq!(gm.red_base.health, 0);
    assert!(matches!(out, TickOutcome::MatchEnd(Team::Red)));
    assert_eq!(gm.state, MatchState::Ended(Team::Red));
}

#[test]
fn action_codes_map_to_actions() {
    assert_eq!(action_from_code(1), Action::MoveUp);
    assert_eq!(action_from_code(2), Action::MoveDown);
    assert_eq!(action_from_code(3), Action::MoveLeft);
    assert_eq!(action_from_code(4), Action::MoveRight);
    assert_eq!(action_from_code(5), Action::Action1);
    assert_eq!(action_from_code(6), Action::Action2);
    assert_eq!(action_from_code(0), Action::InvalidAction);
    assert_eq!(action_from_code(200), Action::InvalidAction);
}

#[test]
fn stored_action_replaces_earlier_one() {
    let mut gm = started_game();
    gm.store_player_action(1, 1);
    gm.store_player_action(1, 4);
    let queued: Vec<_> = gm.player_action.iter().filter(|(id, _)| *id == 1).collect();
    assert_eq!(queued.len(), 1);
    assert_eq!(queued[0].1, Action::MoveRight);
    gm.clear_action();
    assert!(gm.player_action.is_empty());
}

#[test]
fn tick_moves_a_champion() {
    let mut gm = started_game();
    gm.store_player_action(1, 1);
    let out = gm.game_tick(10);
    assert!(matches!(out, TickOutcome::Updates(_)));
    assert_eq!((gm.champions[0].row, gm.champions[0].col), (10, 0));
    assert_eq!(gm.board.get_cell(10, 0).unwrap().content, Some(CellContent::Champion(1, Team::Blue)));
    assert!(gm.board.get_cell(11, 0).unwrap().content.is_none());
}

#[test]
fn tick_emits_one_view_per_champion_covering_the_board() {
    let mut gm = started_game();
    match gm.game_tick(0) {
        TickOutcome::Updates(v) => {
            assert_eq!(v.len(), 1);
            assert_eq!(v[0].player_id, 1);
            assert_eq!(v[0].health, 100);
            assert_eq!(v[0].max_mana, 50);
            assert_eq!(v[0].level, 1);
            assert_eq!(v[0].xp_needed, 100);
            let total: usize = v[0].board.iter().map(|r| r.1).sum();
            assert_eq!(total, 144);
        }
        _ => panic!("expected updates"),
    }
}

#[test]
fn dead_champion_respawns_at_its_base() {
    let mut gm = started_game();
    gm.champions[0].row = 5;
    gm.champions[0].col = 5;
    gm.champions[0].health = 0;
    gm.game_tick(0);
    assert_eq!(gm.champions.len(), 1);
    assert_eq!(gm.champions[0].player_id, 1);
    assert_eq!(gm.champions[0].health, 100);
    assert_eq!((gm.champions[0].row, gm.champions[0].col), (11, 0));
}

#[test]
fn base_destroyed_ends_the_match() {
    let mut gm = started_game();
    gm.red_base.health = 0;
    let out = gm.game_tick(0);
    assert!(matches!(out, TickOutcome::MatchEnd(Team::Blue)));
    assert_eq!(gm.state, MatchState::Ended(Team::Blue));
    let tick = gm.tick;
    assert!(matches!(gm.game_tick(1), TickOutcome::Idle));
    assert_eq!(gm.tick, tick);
}

#[test]
fn blue_base_destroyed_gives_red_the_win() {
    let mut gm = started_game();
    gm.blue_base.health = 0;
    assert!(matches!(gm.game_tick(0), TickOutcome::MatchEnd(Team::Red)));
    assert_eq!(gm.state, MatchState::Ended(Team::Red));
}

#[test]
fn monsters_spawn_after_the_delay() {
    let mut gm = started_game();
    gm.game_tick(4_999);
    assert!(gm.monster_manager.active_monsters.is_empty());
    gm.game_tick(5_000);
    assert_eq!(gm.monster_manager.active_monsters.len(), 1);
    assert!(matches!(gm.board.get_cell(6, 0).unwrap().content, Some(CellContent::Monster(_))));
}

#[test]
fn minion_wave_spawns_after_the_first_delay() {
    let mut gm = started_game();
    gm.game_tick(29_999);
    assert!(gm.minion_manager.minions.is_empty());
    gm.game_tick(30_000);
    assert_eq!(gm.minion_manager.minions.len(), 2);
    assert_eq!(gm.minion_manager.minions[0].team, Team::Blue);
    assert_eq!((gm.minion_manager.minions[0].row, gm.minion_manager.minions[0].col), (10, 1));
    assert_eq!((gm.minion_manager.minions[1].row, gm.minion_manager.minions[1].col), (1, 10));
}

#[test]
fn lethal_damage_destroys_tower_on_the_spot() {
    let mut board = floor_board(4, 4);
    let mut towers = vec![Tower::new(7, Team::Red, 1, 2, tower_stats())];
    board.place_cell(CellContent::Tower(7, Team::Red), 1, 2);
    apply_to_tower(&mut towers, &mut board, 7, &vec![GameplayEffect::Damage(10)]);
    assert_eq!(towers[0].health, 20);
    apply_to_tower(&mut towers, &mut board, 7, &vec![GameplayEffect::Damage(25)]);
    assert!(towers.is_empty());
    let cell = board.get_cell(1, 2).unwrap();
    assert_eq!(cell.base, BaseTerrain::TowerDestroyed);
    assert!(cell.content.is_none());
}

fn champ(id: usize, team: Team, row: u16, col: u16) -> Champion {
    Champion::new(id, team, row, col, champion_stats(), Vec::new())
}

#[test]
fn minion_xp_split_between_two_champions() {
    let mut champs = vec![
        champ(1, Team::Blue, 5, 5),
        champ(2, Team::Blue, 7, 3),
        champ(3, Team::Blue, 9, 9),
        champ(4, Team::Red, 5, 6),
    ];
    distribute_minion_xp(&mut champs, 5, 5, Team::Red, 5);
    assert_eq!(champs[0].xp, 2);
    assert_eq!(champs[1].xp, 2);
    assert_eq!(champs[2].xp, 0);
    assert_eq!(champs[3].xp, 0);
}

#[test]
fn minion_xp_with_nobody_near_is_lost() {
    let mut champs = vec![champ(1, Team::Blue, 0, 0), champ(2, Team::Red, 5, 5)];
    distribute_minion_xp(&mut champs, 5, 5, Team::Red, 5);
    assert_eq!(champs[0].xp, 0);
    assert_eq!(champs[1].xp, 0);
}

#[test]
fn xp_levels_up_champions() {
    let mut c = champ(1, Team::Blue, 0, 0);
    c.add_xp(250);
    assert_eq!(c.level, 2);
    assert_eq!(c.xp, 150);
    assert_eq!(c.xp_for_next_level(), Some(200));
    c.add_xp(60);
    assert_eq!(c.level, 3);
    assert_eq!(c.xp, 10);
}

#[test]
fn projectile_with_lost_target_is_discarded() {
    let mut pm = ProjectileManager::new();
    pm.create_homing_projectile(
        1,
        Team::Blue,
        Target::Minion(99),
        (0, 0),
        1,
        vec![GameplayEffect::Damage(5)],
        CellAnimation::ProjectileTrail,
    );
    pm.projectiles[0].last_drawn = Some((0, 0));
    let mut hits = Vec::new();
    let mut cmds = Vec::new();
    pm.update_and_check_collisions(&vec![(Target::Minion(3), 0, 1)], &mut hits, &mut cmds);
    assert!(hits.is_empty());
    assert!(pm.projectiles.is_empty());
    assert_eq!(cmds, vec![AnimationCommand::Clear { row: 0, col: 0 }]);
}

#[test]
fn projectile_homes_and_hits() {
    let mut pm = ProjectileManager::new();
    pm.create_homing_projectile(
        4,
        Team::Red,
        Target::Champion(2),
        (0, 0),
        1,
        vec![GameplayEffect::Damage(5)],
        CellAnimation::ProjectileTrail,
    );
    let mut hits = Vec::new();
    let mut cmds = Vec::new();
    pm.update_and_check_collisions(&vec![(Target::Champion(2), 5, 0)], &mut hits, &mut cmds);
    assert!(hits.is_empty());
    assert_eq!((pm.projectiles[0].row, pm.projectiles[0].col), (1, 0));
    assert_eq!(
        cmds,
        vec![AnimationCommand::Draw { row: 1, col: 0, animation_type: CellAnimation::ProjectileTrail }]
    );
    let mut cmds = Vec::new();
    pm.update_and_check_collisions(&vec![(Target::Champion(2), 3, 0)], &mut hits, &mut cmds);
    assert_eq!(hits.len(), 1);
    assert_eq!(hits[0].target, Target::Champion(2));
    assert_eq!(hits[0].attacker, Some(4));
    assert_eq!(hits[0].effects, vec![GameplayEffect::Damage(5)]);
    assert!(pm.projectiles.is_empty());
    assert_eq!(cmds, vec![AnimationCommand::Clear { row: 1, col: 0 }]);
}

#[test]
fn orphan_animation_is_cleared_and_dropped() {
    let mut orphan = Animation::new(CellAnimation::MeleeHit, 42, None, 3);
    orphan.last_drawn = Some((1, 1));
    orphan.frame = 1;
    let live = Animation::new(CellAnimation::TowerHit, 7, None, 2);
    let mut clears = Vec::new();
    let mut draws = Vec::new();
    let kept = advance_animations(&vec![orphan, live], &vec![(7, 2, 3)], &mut clears, &mut draws);
    assert_eq!(clears, vec![AnimationCommand::Clear { row: 1, col: 1 }]);
    assert_eq!(
        draws,
        vec![AnimationCommand::Draw { row: 2, col: 3, animation_type: CellAnimation::TowerHit }]
    );
    assert_eq!(kept.len(), 1);
    assert_eq!(kept[0].owner_id, 7);
    assert_eq!(kept[0].last_drawn, Some((2, 3)));
}

#[test]
fn finished_animation_is_dropped() {
    let mut a = Animation::new(CellAnimation::MeleeHit, 7, None, 1);
    assert_eq!(
        a.next_frame(1, 1),
        AnimationCommand::Draw { row: 1, col: 1, animation_type: CellAnimation::MeleeHit }
    );
    assert_eq!(a.next_frame(1, 1), AnimationCommand::Done);
}

#[test]
fn stunned_champion_cannot_act() {
    let mut board = floor_board(3, 3);
    let mut pm = ProjectileManager::new();
    let mut c = champ(1, Team::Blue, 1, 1);
    c.buffs.push(Buff { kind: BuffKind::Stun, ticks_left: 2 });
    assert_eq!(take_action(&mut c, Action::MoveUp, &mut board, &mut pm), Err(GameError::IsStunned));
    assert_eq!((c.row, c.col), (1, 1));
}

#[test]
fn move_into_wall_is_refused() {
    let mut terrain = vec![BaseTerrain::Floor; 9];
    terrain[1] = BaseTerrain::Wall;
    let mut board = Board::new(3, 3, &terrain);
    let mut pm = ProjectileManager::new();
    let mut c = champ(3, Team::Blue, 1, 1);
    assert_eq!(
        take_action(&mut c, Action::MoveUp, &mut board, &mut pm),
        Err(GameError::CannotMoveHere(3))
    );
    assert_eq!(take_action(&mut c, Action::MoveDown, &mut board, &mut pm), Ok(()));
    assert_eq!((c.row, c.col), (2, 1));
    assert_eq!(
        take_action(&mut c, Action::MoveDown, &mut board, &mut pm),
        Err(GameError::CannotMoveHere(3))
    );
}

#[test]
fn invalid_action_is_reported() {
    let mut board = floor_board(3, 3);
    let mut pm = ProjectileManager::new();
    let mut c = champ(1, Team::Blue, 1, 1);
    assert!(matches!(
        take_action(&mut c, Action::InvalidAction, &mut board, &mut pm),
        Err(GameError::InvalidInput(_))
    ));
    assert!(matches!(
        take_action(&mut c, Action::Action1, &mut board, &mut pm),
        Err(GameError::InvalidInput(_))
    ));
}

#[test]
fn heal_spell_costs_mana() {
    let mut board = floor_board(3, 3);
    let mut pm = ProjectileManager::new();
    let mut c = Champion::new(
        1,
        Team::Blue,
        1,
        1,
        champion_stats(),
        vec![Spell { id: 1, kind: SpellKind::Heal { amount: 20 }, mana_cost: 10 }],
    );
    c.health = 50;
    assert_eq!(take_action(&mut c, Action::Action1, &mut board, &mut pm), Ok(()));
    assert_eq!(c.health, 70);
    assert_eq!(c.mana, 40);
}

#[test]
fn bolt_without_target_finds_no_cell() {
    let mut board = floor_board(3, 3);
    let mut pm = ProjectileManager::new();
    let mut c = Champion::new(
        1,
        Team::Blue,
        1,
        1,
        champion_stats(),
        vec![Spell { id: 3, kind: SpellKind::Bolt { damage: 9, speed: 2, range: 2 }, mana_cost: 5 }],
    );
    assert_eq!(take_action(&mut c, Action::Action1, &mut board, &mut pm), Err(GameError::NotFoundCell));
    board.place_cell(CellContent::Minion(5, Team::Red), 0, 0);
    assert_eq!(take_action(&mut c, Action::Action1, &mut board, &mut pm), Ok(()));
    assert_eq!(pm.projectiles.len(), 1);
    assert_eq!(pm.projectiles[0].target, Target::Minion(5));
}

#[test]
fn expired_buffs_are_dropped_and_undone() {
    let mut damage: u32 = 15;
    let buffs = vec![
        Buff { kind: BuffKind::Stun, ticks_left: 1 },
        Buff { kind: BuffKind::AttackBoost(5), ticks_left: 1 },
        Buff { kind: BuffKind::AttackBoost(3), ticks_left: 3 },
    ];
    let kept = decay_buffs(buffs, &mut damage);
    assert_eq!(damage, 10);
    assert_eq!(kept, vec![Buff { kind: BuffKind::AttackBoost(3), ticks_left: 2 }]);
}

#[test]
fn dead_champion_cannot_act() {
    let mut board = floor_board(3, 3);
    let mut pm = ProjectileManager::new();
    let mut c = champ(1, Team::Blue, 1, 1);
    c.health = 0;
    assert_eq!(take_action(&mut c, Action::MoveUp, &mut board, &mut pm), Err(GameError::PlayerIsDead));
    assert_eq!((c.row, c.col), (1, 1));
}

#[test]
fn empower_raises_damage_until_it_expires() {
    let mut board = floor_board(3, 3);
    let mut pm = ProjectileManager::new();
    let mut c = Champion::new(
        1,
        Team::Blue,
        1,
        1,
        champion_stats(),
        vec![Spell { id: 2, kind: SpellKind::Empower { bonus: 5, ticks: 1 }, mana_cost: 10 }],
    );
    assert_eq!(take_action(&mut c, Action::Action1, &mut board, &mut pm), Ok(()));
    assert_eq!(c.attack_damage, 15);
    let buffs = std::mem::take(&mut c.buffs);
    let mut damage = c.attack_damage;
    let kept = decay_buffs(buffs, &mut damage);
    assert!(kept.is_empty());
    assert_eq!(damage, 10);
}

#[test]
fn tick_drops_animation_of_vanished_owner() {
    let mut gm = started_game();
    let mut anim = Animation::new(CellAnimation::MeleeHit, 999, None, 5);
    anim.frame = 1;
    anim.last_drawn = Some((3, 3));
    gm.animations.push(anim);
    gm.board.place_animation(CellAnimation::MeleeHit, 3, 3);
    gm.game_tick(0);
    assert!(gm.board.get_cell(3, 3).unwrap().animation.is_none());
    assert!(gm.animations.iter().all(|a| a.owner_id != 999));
}

#[test]
fn tick_discards_projectile_of_vanished_target() {
    let mut gm = started_game();
    gm.projectile_manager.create_homing_projectile(
        1,
        Team::Blue,
        Target::Minion(999),
        (5, 5),
        1,
        vec![GameplayEffect::Damage(50)],
        CellAnimation::ProjectileTrail,
    );
    let healths: Vec<u32> = gm.champions.iter().map(|c| c.health).collect();
    let towers: Vec<u32> = gm.towers.iter().map(|t| t.health).collect();
    gm.game_tick(0);
    assert!(gm.projectile_manager.projectiles.iter().all(|p| p.target != Target::Minion(999)));
    assert_eq!(gm.champions.iter().map(|c| c.health).collect::<Vec<_>>(), healths);
    assert_eq!(gm.towers.iter().map(|t| t.health).collect::<Vec<_>>(), towers);
    assert_eq!(gm.red_base.health, 50);
    assert_eq!(gm.blue_base.health, 50);
}

#[test]
fn tower_fires_at_enemy_in_range() {
    let mut gm = started_game();
    // Move the champion next to the red tower at (8, 2).
    gm.board.clear_cell(11, 0);
    gm.champions[0].row = 8;
    gm.champions[0].col = 4;
    gm.board.place_cell(CellContent::Champion(1, Team::Blue), 8, 4);
    gm.game_tick(0);
    let fired = gm.towers.iter().find(|t| t.row == 8 && t.col == 2).unwrap();
    assert_eq!(fired.cooldown_left, tower_stats().attack_cooldown);
    assert!(gm.projectile_manager.projectiles.iter().any(|p| p.target == Target::Champion(1))
        || gm.champions[0].health < 100);
}

#[test]
fn dead_champions_get_no_minion_xp() {
    let mut champs = vec![champ(1, Team::Blue, 5, 5), champ(2, Team::Blue, 5, 4)];
    champs[1].health = 0;
    distribute_minion_xp(&mut champs, 5, 5, Team::Red, 5);
    assert_eq!(champs[0].xp, 5);
    assert_eq!(champs[1].xp, 0);
}

#[test]
fn overlapping_bases_are_rejected() {
    let mut l = layout();
    l.blue_base = (1, 1);
    let r = GameManager::new(config(1), l, floor_board(12, 12));
    assert!(matches!(r, Err(GameError::NotFoundCell)));
}

#[test]
fn new_marks_both_base_areas() {
    let gm = GameManager::new(config(1), layout(), floor_board(12, 12)).unwrap();
    for i in 0..3 {
        for j in 0..3 {
            assert_eq!(gm.board.get_cell(i, j).unwrap().content, Some(CellContent::Base(Team::Red)));
            assert_eq!(gm.board.get_cell(9 + i, 9 + j).unwrap().content, Some(CellContent::Base(Team::Blue)));
        }
    }
}
