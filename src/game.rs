use vstd::prelude::*;

use crate::animation::{advance_animations, kept_animations, Animation, AnimationCommand};
use crate::board::{dist, lemma_index_distinct, keeps_destroyed, lemma_keeps_destroyed_trans, lemma_with_cell_keeps_destroyed, lemma_encoding_covers_board, lemma_index_in_bounds, run_total, Board, ScanFilter};
use crate::cell::{BaseTerrain, Cell, CellAnimation, CellContent, MinionId, PlayerId, Team, TowerId};
use crate::entities::{
    action_from_code, content_target, decay_buffs, gained, health_after, health_after_effects,
    damage_after_decay, has_stun, is_stunned, kept_buffs, stuns_of, xp_needed, MAX_LEVEL, lemma_health_after_le, spec_action, spec_content_target, Action,
    Base, Buff, BuffKind,
    Champion, ChampionStats, GameplayEffect, Minion, MinionStats, MonsterStats, PendingEffect,
    Monster, Spell, SpellKind, Target, Tower, TowerStats,
};
use crate::errors::GameError;
use crate::minion_manager::{MinionManager, MELEE_FRAMES};
use crate::monster_manager::MonsterManager;
use crate::projectile::{Projectile, ProjectileManager};

verus! {

/// First identifier given to towers; minions and monsters count from their
/// own bases so that no two entities of the match share one.
pub const TOWER_ID_BASE: usize = 100000;

pub const MINION_ID_BASE: usize = 1000000;

pub const MONSTER_ID_BASE: usize = 2000000;

/// Side of the square around a dead minion whose enemy champions share its
/// experience, counted from the centre.
pub const MINION_XP_RADIUS: u16 = 2;

/// Experience shared among the champions near a minion that dies.
pub const MINION_XP_REWARD: u32 = 5;

/// Frames of a tower hit animation.
pub const TOWER_HIT_FRAMES: u8 = 2;

/// Balance tables, fixed for the whole match.
pub struct GameConfig {
    pub max_players: usize,
    pub champion: ChampionStats,
    pub tower: TowerStats,
    pub base_health: u32,
    pub minion: MinionStats,
    pub minions_per_wave: u32,
    pub wave_interval_ms: u64,
    pub first_wave_delay_ms: u64,
    pub monster: MonsterStats,
    pub monster_spawn_delay_ms: u64,
    pub spells: Vec<Spell>,
}

/// Where the fixed parts of the map stand.
pub struct MapLayout {
    /// Each entry places a blue tower at `(r, c)` and a red one at `(c, r)`.
    pub tower_places: Vec<(u16, u16)>,
    /// Top-left corners of the 3 x 3 bases.
    pub blue_base: (u16, u16),
    pub red_base: (u16, u16),
    /// Where champions of each team enter and come back after dying.
    pub blue_spawn: (u16, u16),
    pub red_spawn: (u16, u16),
    pub lane: Vec<(u16, u16)>,
    pub camps: Vec<(u16, u16)>,
}

#[derive(Debug, Clone, Copy, PartialEq, Eq, Structural)]
pub enum MatchState {
    NotStarted,
    Active,
    /// The match is over; the team is the winner.
    Ended(Team),
}

/// What one player sees after a tick.
pub struct PlayerUpdate {
    pub player_id: PlayerId,
    pub health: u32,
    pub max_health: u32,
    pub mana: u32,
    pub max_mana: u32,
    pub level: u8,
    pub xp: u32,
    pub xp_needed: u32,
    pub board: Vec<(u8, usize)>,
}

/// The result of one tick.
pub enum TickOutcome {
    /// No game logic ran: the match is not under way.
    Idle,
    /// One view for each champion, in the order of the champion list.
    Updates(Vec<PlayerUpdate>),
    /// A base fell during this tick; the team is the winner.
    MatchEnd(Team),
}

pub open spec fn spawn_of(layout: MapLayout, team: Team) -> (u16, u16) {
    match team {
        Team::Blue => layout.blue_spawn,
        Team::Red => layout.red_spawn,
    }
}

pub open spec fn pos_fits(p: (u16, u16), rows: usize, cols: usize) -> bool {
    p.0 < rows && p.1 < cols
}

/// Whether every fixed position of the layout lies on a board of this size.
pub open spec fn layout_fits(layout: MapLayout, rows: usize, cols: usize) -> bool {
    &&& forall|k: int|
        0 <= k < layout.tower_places@.len() ==> pos_fits(#[trigger] layout.tower_places@[k], rows, cols)
            && pos_fits((layout.tower_places@[k].1, layout.tower_places@[k].0), rows, cols)
    &&& layout.blue_base.0 + 2 < rows && layout.blue_base.1 + 2 < cols
    &&& layout.red_base.0 + 2 < rows && layout.red_base.1 + 2 < cols
    &&& pos_fits(layout.blue_spawn, rows, cols)
    &&& pos_fits(layout.red_spawn, rows, cols)
    &&& bases_apart(layout.red_base, layout.blue_base)
}

/// The 3 x 3 areas of two bases do not overlap.
pub open spec fn bases_apart(a: (u16, u16), b: (u16, u16)) -> bool {
    a.0 + 3 <= b.0 || b.0 + 3 <= a.0 || a.1 + 3 <= b.1 || b.1 + 3 <= a.1
}

fn check_pos(p: (u16, u16), rows: usize, cols: usize) -> (r: bool)
    ensures
        r == pos_fits(p, rows, cols),
{
    (p.0 as usize) < rows && (p.1 as usize) < cols
}

fn check_layout(layout: &MapLayout, rows: usize, cols: usize) -> (r: bool)
    ensures
        r == layout_fits(*layout, rows, cols),
{
    let mut i: usize = 0;
    while i < layout.tower_places.len()
        invariant
            0 <= i <= layout.tower_places@.len(),
            forall|k: int|
                0 <= k < i ==> pos_fits(#[trigger] layout.tower_places@[k], rows, cols) && pos_fits(
                    (layout.tower_places@[k].1, layout.tower_places@[k].0),
                    rows,
                    cols,
                ),
        decreases layout.tower_places.len() - i,
    {
        let (r, c) = layout.tower_places[i];
        if !check_pos((r, c), rows, cols) || !check_pos((c, r), rows, cols) {
            return false;
        }
        i = i + 1;
    }
    (layout.blue_base.0 as usize) + 2 < rows && (layout.blue_base.1 as usize) + 2 < cols
        && (layout.red_base.0 as usize) + 2 < rows && (layout.red_base.1 as usize) + 2 < cols
        && check_pos(layout.blue_spawn, rows, cols) && check_pos(layout.red_spawn, rows, cols)
        && ((layout.red_base.0 as u32) + 3 <= layout.blue_base.0 as u32 || (layout.blue_base.0 as u32)
        + 3 <= layout.red_base.0 as u32 || (layout.red_base.1 as u32) + 3 <= layout.blue_base.1 as u32
        || (layout.blue_base.1 as u32) + 3 <= layout.red_base.1 as u32)
}

/// The winner decided by the win check: a base that was already down when
/// the tick began decides first (the red one before the blue one), then a
/// base that fell during the tick (again red first).
pub open spec fn winner(red_before: u32, blue_before: u32, red_after: u32, blue_after: u32) -> Option<
    Team,
> {
    if red_before == 0 {
        Some(Team::Blue)
    } else if blue_before == 0 {
        Some(Team::Red)
    } else if red_after == 0 {
        Some(Team::Blue)
    } else if blue_after == 0 {
        Some(Team::Red)
    } else {
        None
    }
}

/// Whether `c` is a living enemy of `team` standing within the sharing
/// square around `(row, col)`.
pub open spec fn shares_minion_xp(c: Champion, row: u16, col: u16, team: Team) -> bool {
    &&& c.team != team
    &&& c.health > 0
    &&& dist(c.row as int, c.col as int, row as int, col as int) <= MINION_XP_RADIUS
}

/// How many champions of the list share a minion's experience.
pub open spec fn sharing_count(champs: Seq<Champion>, row: u16, col: u16, team: Team) -> nat
    decreases champs.len(),
{
    if champs.len() == 0 {
        0
    } else {
        sharing_count(champs.drop_last(), row, col, team) + if shares_minion_xp(
            champs.last(),
            row,
            col,
            team,
        ) {
            1nat
        } else {
            0nat
        }
    }
}

/// Each champion's share of a minion's experience: the reward divided
/// evenly, the remainder dropped.
pub open spec fn minion_xp_share(reward: u32, count: nat) -> u32 {
    if count == 0 { 0 } else { (reward as nat / count) as u32 }
}

pub proof fn lemma_sharing_count_le(champs: Seq<Champion>, row: u16, col: u16, team: Team)
    ensures
        sharing_count(champs, row, col, team) <= champs.len(),
    decreases champs.len(),
{
    if champs.len() > 0 {
        lemma_sharing_count_le(champs.drop_last(), row, col, team);
    }
}

pub proof fn lemma_sharing_count_zero(champs: Seq<Champion>, row: u16, col: u16, team: Team)
    requires
        sharing_count(champs, row, col, team) == 0,
    ensures
        forall|k: int| 0 <= k < champs.len() ==> !shares_minion_xp(#[trigger] champs[k], row, col, team),
    decreases champs.len(),
{
    if champs.len() > 0 {
        lemma_sharing_count_zero(champs.drop_last(), row, col, team);
        assert forall|k: int| 0 <= k < champs.len() implies !shares_minion_xp(
            #[trigger] champs[k],
            row,
            col,
            team,
        ) by {
            if k < champs.len() - 1 {
                assert(champs[k] == champs.drop_last()[k]);
            }
        }
    }
}

fn count_sharing(champs: &Vec<Champion>, row: u16, col: u16, team: Team) -> (n: usize)
    ensures
        n == sharing_count(champs@, row, col, team),
{
    let mut n: usize = 0;
    let mut i: usize = 0;
    while i < champs.len()
        invariant
            0 <= i <= champs@.len(),
            n == sharing_count(champs@.take(i as int), row, col, team),
        decreases champs.len() - i,
    {
        proof {
            assert(champs@.take(i as int + 1).drop_last() =~= champs@.take(i as int));
            lemma_sharing_count_le(champs@.take(i as int), row, col, team);
        }
        let c = &champs[i];
        let dr: u16 = if c.row >= row { c.row - row } else { row - c.row };
        let dc: u16 = if c.col >= col { c.col - col } else { col - c.col };
        if c.team != team && c.health > 0 && dr <= MINION_XP_RADIUS && dc <= MINION_XP_RADIUS {
            n = n + 1;
        }
        i = i + 1;
    }
    assert(champs@.take(champs@.len() as int) =~= champs@);
    n
}

/// Splits `reward` evenly among the living enemy champions near a minion that died
/// at `(row, col)`; with none near, nobody receives anything.
pub fn distribute_minion_xp(champs: &mut Vec<Champion>, row: u16, col: u16, team: Team, reward: u32)
    requires
        forall|k: int| 0 <= k < old(champs)@.len() ==> (#[trigger] old(champs)@[k]).wf(),
    ensures
        final(champs)@.len() == old(champs)@.len(),
        forall|k: int|
            0 <= k < old(champs)@.len() ==> {
                let c = #[trigger] old(champs)@[k];
                let d = final(champs)@[k];
                &&& d.wf()
                &&& if shares_minion_xp(c, row, col, team) {
                    &&& (d.level as nat, d.xp as nat) == gained(
                        c.level,
                        c.xp,
                        minion_xp_share(reward, sharing_count(old(champs)@, row, col, team)),
                    )
                    &&& d == (Champion { level: d.level, xp: d.xp, ..c })
                } else {
                    d == c
                }
            },
{
    let count = count_sharing(champs, row, col, team);
    if count == 0 {
        proof {
            lemma_sharing_count_zero(old(champs)@, row, col, team);
        }
        return ;
    }
    let share: u32 = ((reward as u64) / (count as u64)) as u32;
    proof {
        lemma_sharing_count_le(old(champs)@, row, col, team);
    }
    let n = champs.len();
    let mut i: usize = 0;
    while i < n
        invariant
            n == champs@.len(),
            n == old(champs)@.len(),
            0 <= i <= n,
            count == sharing_count(old(champs)@, row, col, team),
            count > 0,
            share == minion_xp_share(reward, count as nat),
            forall|k: int| i <= k < n ==> #[trigger] champs@[k] == old(champs)@[k],
            forall|k: int|
                0 <= k < i ==> {
                    let c = #[trigger] old(champs)@[k];
                    let d = champs@[k];
                    &&& d.wf()
                    &&& if shares_minion_xp(c, row, col, team) {
                        &&& (d.level as nat, d.xp as nat) == gained(c.level, c.xp, share)
                        &&& d == (Champion { level: d.level, xp: d.xp, ..c })
                    } else {
                        d == c
                    }
                },
            forall|k: int| 0 <= k < n ==> (#[trigger] old(champs)@[k]).wf(),
        decreases n - i,
    {
        let c = &champs[i];
        let dr: u16 = if c.row >= row { c.row - row } else { row - c.row };
        let dc: u16 = if c.col >= col { c.col - col } else { col - c.col };
        if c.team != team && c.health > 0 && dr <= MINION_XP_RADIUS && dc <= MINION_XP_RADIUS {
            champs[i].add_xp(share);
        }
        i = i + 1;
    }
}

/// The experience split law on a concrete case: a reward of 5 shared by two
/// champions gives each 2, and with nobody near nothing is given.
pub proof fn lemma_minion_xp_split()
    ensures
        minion_xp_share(5, 2) == 2,
        minion_xp_share(5, 0) == 0,
        forall|reward: u32, n: nat| n > 0 ==> #[trigger] minion_xp_share(reward, n) * n <= reward,
{
    assert forall|reward: u32, n: nat| n > 0 implies #[trigger] minion_xp_share(reward, n) * n
        <= reward by {
        assert((reward as nat / n) * n <= reward) by (nonlinear_arith)
            requires
                n > 0,
        ;
    }
}

/// Advances every champion's buffs by one tick; expired ones are dropped
/// after undoing their effect.
pub fn decay_champion_buffs(champs: &mut Vec<Champion>)
    ensures
        final(champs)@.len() == old(champs)@.len(),
        forall|k: int|
            0 <= k < old(champs)@.len() ==> {
                let c = #[trigger] old(champs)@[k];
                let d = final(champs)@[k];
                &&& d.buffs@ == kept_buffs(c.buffs@)
                &&& d.attack_damage as int == damage_after_decay(c.attack_damage, c.buffs@)
                &&& d == (Champion { buffs: d.buffs, attack_damage: d.attack_damage, ..c })
            },
{
    let n = champs.len();
    let mut i: usize = 0;
    while i < n
        invariant
            n == champs@.len(),
            n == old(champs)@.len(),
            0 <= i <= n,
            forall|k: int| i <= k < n ==> #[trigger] champs@[k] == old(champs)@[k],
            forall|k: int|
                0 <= k < i ==> {
                    let c = #[trigger] old(champs)@[k];
                    let d = champs@[k];
                    &&& d.buffs@ == kept_buffs(c.buffs@)
                    &&& d.attack_damage as int == damage_after_decay(c.attack_damage, c.buffs@)
                    &&& d == (Champion { buffs: d.buffs, attack_damage: d.attack_damage, ..c })
                },
        decreases n - i,
    {
        let mut buffs: Vec<Buff> = Vec::new();
        core::mem::swap(&mut buffs, &mut champs[i].buffs);
        let mut damage = champs[i].attack_damage;
        let kept = decay_buffs(buffs, &mut damage);
        champs[i].buffs = kept;
        champs[i].attack_damage = damage;
        i = i + 1;
    }
}

/// Advances every minion's buffs by one tick; expired ones are dropped.
pub fn decay_minion_buffs(minions: &mut Vec<Minion>)
    ensures
        final(minions)@.len() == old(minions)@.len(),
        forall|k: int|
            0 <= k < old(minions)@.len() ==> {
                let c = #[trigger] old(minions)@[k];
                let d = final(minions)@[k];
                &&& d.buffs@ == kept_buffs(c.buffs@)
                &&& d.attack_damage as int == damage_after_decay(c.attack_damage, c.buffs@)
                &&& d == (Minion { buffs: d.buffs, attack_damage: d.attack_damage, ..c })
            },
{
    let n = minions.len();
    let mut i: usize = 0;
    while i < n
        invariant
            n == minions@.len(),
            n == old(minions)@.len(),
            0 <= i <= n,
            forall|k: int| i <= k < n ==> #[trigger] minions@[k] == old(minions)@[k],
            forall|k: int|
                0 <= k < i ==> {
                    let c = #[trigger] old(minions)@[k];
                    let d = minions@[k];
                    &&& d.buffs@ == kept_buffs(c.buffs@)
                    &&& d.attack_damage as int == damage_after_decay(c.attack_damage, c.buffs@)
                    &&& d == (Minion { buffs: d.buffs, attack_damage: d.attack_damage, ..c })
                },
        decreases n - i,
    {
        let mut buffs: Vec<Buff> = Vec::new();
        core::mem::swap(&mut buffs, &mut minions[i].buffs);
        let mut damage = minions[i].attack_damage;
        let kept = decay_buffs(buffs, &mut damage);
        minions[i].buffs = kept;
        minions[i].attack_damage = damage;
        i = i + 1;
    }
}

/// The cell a move action aims at, if it lies on the board's coordinates.
pub open spec fn move_target(row: u16, col: u16, a: Action) -> Option<(u16, u16)> {
    match a {
        Action::MoveUp => if row > 0 { Some(((row - 1) as u16, col)) } else { None },
        Action::MoveDown => if row < u16::MAX { Some(((row + 1) as u16, col)) } else { None },
        Action::MoveLeft => if col > 0 { Some((row, (col - 1) as u16)) } else { None },
        Action::MoveRight => if col < u16::MAX { Some((row, (col + 1) as u16)) } else { None },
        _ => None,
    }
}

pub open spec fn is_move(a: Action) -> bool {
    a is MoveUp || a is MoveDown || a is MoveLeft || a is MoveRight
}

fn target_of_move(row: u16, col: u16, a: Action) -> (r: Option<(u16, u16)>)
    ensures
        r == move_target(row, col, a),
{
    match a {
        Action::MoveUp => if row > 0 { Some((row - 1, col)) } else { None },
        Action::MoveDown => if row < u16::MAX { Some((row + 1, col)) } else { None },
        Action::MoveLeft => if col > 0 { Some((row, col - 1)) } else { None },
        Action::MoveRight => if col < u16::MAX { Some((row, col + 1)) } else { None },
        _ => None,
    }
}

/// Moves a champion's occupant mark and position to `to`.
fn relocate(champ: &mut Champion, board: &mut Board, to: (u16, u16))
    requires
        old(board).wf(),
    ensures
        final(board).wf(),
        final(board).rows == old(board).rows,
        final(board).cols == old(board).cols,
        *final(champ) == (Champion { row: to.0, col: to.1, ..*old(champ) }),
{
    board.clear_cell(champ.row as usize, champ.col as usize);
    board.place_cell(CellContent::Champion(champ.player_id, champ.team), to.0 as usize, to.1 as usize);
    champ.row = to.0;
    champ.col = to.1;
}

/// Applies a player's action. A dead or stunned champion does nothing; a move
/// succeeds exactly when the cell it aims at is passable; a spell needs the
/// mana it costs.
pub fn take_action(
    champ: &mut Champion,
    action: Action,
    board: &mut Board,
    projectiles: &mut ProjectileManager,
) -> (r: Result<(), GameError>)
    requires
        old(board).wf(),
    ensures
        final(board).wf(),
        final(board).rows == old(board).rows,
        final(board).cols == old(board).cols,
        final(champ).player_id == old(champ).player_id,
        final(champ).team == old(champ).team,
        final(champ).max_health == old(champ).max_health,
        final(champ).level == old(champ).level,
        final(champ).xp == old(champ).xp,
        buffs_extend(*old(champ), *final(champ)),
        old(champ).health == 0 ==> r == Err::<(), GameError>(GameError::PlayerIsDead)
            && *final(champ) == *old(champ),
        old(champ).health > 0 && has_stun(old(champ).buffs@) ==> r == Err::<(), GameError>(
            GameError::IsStunned,
        ) && *final(champ) == *old(champ),
        old(champ).health > 0 && !has_stun(old(champ).buffs@) && is_move(action) ==> match move_target(
            old(champ).row,
            old(champ).col,
            action,
        ) {
            Some((tr, tc)) => if old(board).passable_at(tr as int, tc as int) {
                r is Ok && *final(champ) == (Champion { row: tr, col: tc, ..*old(champ) })
            } else {
                r == Err::<(), GameError>(GameError::CannotMoveHere(old(champ).player_id))
                    && *final(champ) == *old(champ)
            },
            None => r == Err::<(), GameError>(GameError::CannotMoveHere(old(champ).player_id))
                && *final(champ) == *old(champ),
        },
        action is InvalidAction ==> r is Err && *final(champ) == *old(champ),
{
    if champ.health == 0 {
        return Err(GameError::PlayerIsDead);
    }
    if is_stunned(&champ.buffs) {
        return Err(GameError::IsStunned);
    }
    match action {
        Action::Action1 => cast_spell(champ, 0, board, projectiles),
        Action::Action2 => cast_spell(champ, 1, board, projectiles),
        Action::InvalidAction => Err(GameError::InvalidInput("invalid action".to_owned())),
        _ => match target_of_move(champ.row, champ.col, action) {
            Some((tr, tc)) => {
                if board.is_passable(tr as usize, tc as usize) {
                    relocate(champ, board, (tr, tc));
                    Ok(())
                } else {
                    Err(GameError::CannotMoveHere(champ.player_id))
                }
            },
            None => Err(GameError::CannotMoveHere(champ.player_id)),
        },
    }
}

/// `b`'s buffs begin with `a`'s: buffs may be added, none is lost.
pub open spec fn buffs_extend(a: Champion, b: Champion) -> bool {
    &&& a.buffs@.len() <= b.buffs@.len()
    &&& b.buffs@.subrange(0, a.buffs@.len() as int) =~= a.buffs@
}

pub proof fn lemma_buffs_extend_trans(a: Champion, b: Champion, c: Champion)
    requires
        buffs_extend(a, b),
        buffs_extend(b, c),
    ensures
        buffs_extend(a, c),
{
    assert(c.buffs@.subrange(0, a.buffs@.len() as int) =~= b.buffs@.subrange(0, a.buffs@.len() as int));
}

/// Casts the champion's `slot`-th spell, paying its mana cost.
fn cast_spell(champ: &mut Champion, slot: usize, board: &Board, projectiles: &mut ProjectileManager) -> (r:
    Result<(), GameError>)
    requires
        board.wf(),
    ensures
        final(champ).player_id == old(champ).player_id,
        final(champ).team == old(champ).team,
        final(champ).max_health == old(champ).max_health,
        final(champ).level == old(champ).level,
        final(champ).xp == old(champ).xp,
        final(champ).row == old(champ).row,
        final(champ).col == old(champ).col,
        buffs_extend(*old(champ), *final(champ)),
        r is Err ==> *final(champ) == *old(champ),
        r is Ok ==> slot < old(champ).spells@.len() && final(champ).mana == old(champ).mana
            - old(champ).spells@[slot as int].mana_cost,
{
    if slot >= champ.spells.len() {
        return Err(GameError::InvalidInput("no spell in this slot".to_owned()));
    }
    let spell = champ.spells[slot];
    if champ.mana < spell.mana_cost {
        return Err(GameError::InvalidInput("not enough mana".to_owned()));
    }
    match spell.kind {
        SpellKind::Bolt { damage, speed, range } => {
            let found = board.scan_nearest(
                champ.row as usize,
                champ.col as usize,
                range as usize,
                ScanFilter::EnemyOrMonster(champ.team),
            );
            let target = match found {
                Some((r, c)) => match board.get_cell(r, c) {
                    Some(cell) => match cell.content {
                        Some(content) => content_target(content),
                        None => None,
                    },
                    None => None,
                },
                None => None,
            };
            match target {
                Some(t) => {
                    projectiles.create_homing_projectile(
                        champ.player_id,
                        champ.team,
                        t,
                        (champ.row, champ.col),
                        speed,
                        vec![GameplayEffect::Damage(damage)],
                        CellAnimation::ProjectileTrail,
                    );
                },
                None => {
                    return Err(GameError::NotFoundCell);
                },
            }
        },
        SpellKind::Heal { amount } => {
            champ.health = if champ.health >= champ.max_health || amount >= champ.max_health
                - champ.health {
                if champ.health >= champ.max_health { champ.health } else { champ.max_health }
            } else {
                champ.health + amount
            };
        },
        SpellKind::Empower { bonus, ticks } => {
            champ.attack_damage = if champ.attack_damage > u32::MAX - bonus {
                u32::MAX
            } else {
                champ.attack_damage + bonus
            };
            let ghost b0 = champ.buffs@;
            champ.buffs.push(Buff { kind: BuffKind::AttackBoost(bonus), ticks_left: ticks });
            assert(champ.buffs@.subrange(0, b0.len() as int) =~= b0);
        },
    }
    champ.mana = champ.mana - spell.mana_cost;
    Ok(())
}

/// The action queued for a player, if any.
pub open spec fn queued_action(actions: Seq<(PlayerId, Action)>, id: PlayerId) -> Option<Action>
    decreases actions.len(),
{
    if actions.len() == 0 {
        None
    } else if actions[0].0 == id {
        Some(actions[0].1)
    } else {
        queued_action(actions.drop_first(), id)
    }
}

fn find_action(actions: &Vec<(PlayerId, Action)>, id: PlayerId) -> (r: Option<Action>)
    ensures
        r == queued_action(actions@, id),
{
    let mut i: usize = 0;
    assert(actions@.subrange(0, actions@.len() as int) =~= actions@);
    while i < actions.len()
        invariant
            0 <= i <= actions@.len(),
            queued_action(actions@, id) == queued_action(actions@.subrange(i as int, actions@.len() as int), id),
        decreases actions.len() - i,
    {
        proof {
            let rest = actions@.subrange(i as int, actions@.len() as int);
            assert(rest.drop_first() =~= actions@.subrange(i as int + 1, actions@.len() as int));
        }
        if actions[i].0 == id {
            return Some(actions[i].1);
        }
        i = i + 1;
    }
    None
}

/// The occupant of a board cell as a target, if it is one.
fn target_at(board: &Board, found: Option<(usize, usize)>) -> (t: Option<Target>)
    requires
        board.wf(),
    ensures
        found.is_none() ==> t.is_none(),
        found.is_some() && board.in_bounds(found.unwrap().0 as int, found.unwrap().1 as int)
            ==> match board.cell_at(found.unwrap().0 as int, found.unwrap().1 as int).content {
            Some(c) => t == spec_content_target(c),
            None => t.is_none(),
        },
{
    match found {
        Some((r, c)) => match board.get_cell(r, c) {
            Some(cell) => match cell.content {
                Some(content) => content_target(content),
                None => None,
            },
            None => None,
        },
        None => None,
    }
}

/// The player turn. A dead champion is healed to full and sent back to its
/// team's spawn, and does nothing else this tick. Any other champion applies
/// its queued action, then auto-attacks the nearest enemy in range when its
/// cooldown allows; the damage is queued, not applied.
pub fn player_turn(
    champs: &mut Vec<Champion>,
    actions: &Vec<(PlayerId, Action)>,
    board: &mut Board,
    projectiles: &mut ProjectileManager,
    animations: &mut Vec<Animation>,
    pending: &mut Vec<PendingEffect>,
    blue_spawn: (u16, u16),
    red_spawn: (u16, u16),
)
    requires
        old(board).wf(),
    ensures
        final(board).wf(),
        final(board).rows == old(board).rows,
        final(board).cols == old(board).cols,
        final(champs)@.len() == old(champs)@.len(),
        forall|k: int|
            0 <= k < old(champs)@.len() ==> {
                let c = #[trigger] old(champs)@[k];
                let d = final(champs)@[k];
                &&& d.player_id == c.player_id
                &&& d.team == c.team
                &&& d.max_health == c.max_health
                &&& d.level == c.level
                &&& d.xp == c.xp
                &&& buffs_extend(c, d)
                &&& c.health == 0 ==> d.health == c.max_health && (d.row, d.col) == match c.team {
                    Team::Blue => blue_spawn,
                    Team::Red => red_spawn,
                }
            },
{
    let n = champs.len();
    let mut i: usize = 0;
    while i < n
        invariant
            n == champs@.len(),
            n == old(champs)@.len(),
            0 <= i <= n,
            board.wf(),
            board.rows == old(board).rows,
            board.cols == old(board).cols,
            forall|k: int| i <= k < n ==> #[trigger] champs@[k] == old(champs)@[k],
            forall|k: int|
                0 <= k < i ==> {
                    let c = #[trigger] old(champs)@[k];
                    let d = champs@[k];
                    &&& d.player_id == c.player_id
                    &&& d.team == c.team
                    &&& d.max_health == c.max_health
                    &&& d.level == c.level
                    &&& d.xp == c.xp
                    &&& buffs_extend(c, d)
                    &&& c.health == 0 ==> d.health == c.max_health && (d.row, d.col) == match c.team {
                        Team::Blue => blue_spawn,
                        Team::Red => red_spawn,
                    }
                },
        decreases n - i,
    {
        if champs[i].cooldown_left > 0 {
            champs[i].cooldown_left = champs[i].cooldown_left - 1;
        }
        if champs[i].is_dead() {
            champs[i].put_at_max_health();
            let spawn = match champs[i].team {
                Team::Blue => blue_spawn,
                Team::Red => red_spawn,
            };
            relocate(&mut champs[i], board, spawn);
        } else {
            let id = champs[i].player_id;
            if let Some(action) = find_action(actions, id) {
                let _ = take_action(&mut champs[i], action, board, projectiles);
            }
            let found = board.scan_nearest(
                champs[i].row as usize,
                champs[i].col as usize,
                champs[i].attack_range as usize,
                ScanFilter::EnemyOrMonster(champs[i].team),
            );
            if let Some(target) = target_at(board, found) {
                if let Some(damage) = champs[i].can_attack() {
                    pending.push(
                        PendingEffect {
                            attacker: Some(id),
                            target,
                            effects: vec![GameplayEffect::Damage(damage)],
                        },
                    );
                    animations.push(Animation::new(CellAnimation::MeleeHit, id, None, MELEE_FRAMES));
                }
            }
        }
        i = i + 1;
    }
}

/// Whether an enemy champion or minion stands within the tower's range.
pub open spec fn tower_has_target(board: Board, t: Tower) -> bool {
    exists|r: int, c: int|
        #[trigger] board.candidate(
            ScanFilter::EnemyUnitsOf(t.team),
            t.row as int,
            t.col as int,
            t.attack_range as int,
            r,
            c,
        )
}

/// What a tower fires at this turn: off cooldown, the occupant of the cell
/// a scan for enemy units in its range reports.
pub open spec fn tower_shot(t: Tower, board: Board) -> Option<Target> {
    if t.cooldown_left != 0 {
        None
    } else {
        match board.nearest(ScanFilter::EnemyUnitsOf(t.team), t.row as int, t.col as int, t.attack_range as int) {
            None => None,
            Some((r, c)) => match board.cell_at(r, c).content {
                Some(x) => spec_content_target(x),
                None => None,
            },
        }
    }
}

/// The towers that fire this turn, in order, with their targets.
pub open spec fn shots(towers: Seq<Tower>, board: Board) -> Seq<(Tower, Target)>
    decreases towers.len(),
{
    if towers.len() == 0 {
        Seq::empty()
    } else {
        let prev = shots(towers.drop_last(), board);
        match tower_shot(towers.last(), board) {
            Some(tg) => prev.push((towers.last(), tg)),
            None => prev,
        }
    }
}

/// The projectile a tower launches at `tg`.
pub open spec fn is_tower_projectile(p: Projectile, t: Tower, tg: Target) -> bool {
    &&& p.owner_id == t.tower_id
    &&& p.team == t.team
    &&& p.target == tg
    &&& p.row == t.row
    &&& p.col == t.col
    &&& p.speed == t.projectile_speed
    &&& p.effects@ == seq![GameplayEffect::Damage(t.attack_damage)]
    &&& p.visual == CellAnimation::ProjectileTrail
    &&& p.last_drawn.is_none()
}

/// The tower turn: each tower off cooldown fires a homing projectile at
/// the nearest enemy champion or minion in its range.
pub fn tower_turn(towers: &mut Vec<Tower>, board: &Board, projectiles: &mut ProjectileManager)
    requires
        board.wf(),
    ensures
        final(towers)@.len() == old(towers)@.len(),
        forall|k: int|
            0 <= k < old(towers)@.len() ==> {
                let t = #[trigger] old(towers)@[k];
                let u = final(towers)@[k];
                &&& u == (Tower { cooldown_left: u.cooldown_left, ..t })
                &&& t.cooldown_left > 0 ==> u.cooldown_left == t.cooldown_left - 1
                &&& t.cooldown_left == 0 ==> u.cooldown_left == if tower_has_target(*board, t) {
                    t.attack_cooldown
                } else {
                    0
                }
            },
        final(projectiles).projectiles@.len() == old(projectiles).projectiles@.len() + shots(
            old(towers)@,
            *board,
        ).len(),
        final(projectiles).projectiles@.subrange(0, old(projectiles).projectiles@.len() as int)
            == old(projectiles).projectiles@,
        forall|j: int|
            0 <= j < shots(old(towers)@, *board).len() ==> is_tower_projectile(
                #[trigger] final(projectiles).projectiles@[old(projectiles).projectiles@.len() + j],
                shots(old(towers)@, *board)[j].0,
                shots(old(towers)@, *board)[j].1,
            ),
{
    let n = towers.len();
    let ghost launched_before = projectiles.projectiles@;
    let mut i: usize = 0;
    while i < n
        invariant
            n == towers@.len(),
            n == old(towers)@.len(),
            0 <= i <= n,
            board.wf(),
            launched_before == old(projectiles).projectiles@,
            forall|k: int|
                0 <= k < n ==> {
                    let t = #[trigger] old(towers)@[k];
                    let u = towers@[k];
                    u == (Tower { cooldown_left: u.cooldown_left, ..t })
                },
            forall|k: int| i <= k < n ==> #[trigger] towers@[k] == old(towers)@[k],
            forall|k: int|
                0 <= k < i ==> {
                    let t = #[trigger] old(towers)@[k];
                    let u = towers@[k];
                    &&& t.cooldown_left > 0 ==> u.cooldown_left == t.cooldown_left - 1
                    &&& t.cooldown_left == 0 ==> u.cooldown_left == if tower_has_target(*board, t) {
                        t.attack_cooldown
                    } else {
                        0
                    }
                },
            projectiles.projectiles@.len() == launched_before.len() + shots(
                old(towers)@.take(i as int),
                *board,
            ).len(),
            projectiles.projectiles@.subrange(0, launched_before.len() as int) == launched_before,
            forall|j: int|
                0 <= j < shots(old(towers)@.take(i as int), *board).len() ==> is_tower_projectile(
                    #[trigger] projectiles.projectiles@[launched_before.len() + j],
                    shots(old(towers)@.take(i as int), *board)[j].0,
                    shots(old(towers)@.take(i as int), *board)[j].1,
                ),
        decreases n - i,
    {
        let t = towers[i];
        let ghost before_shots = shots(old(towers)@.take(i as int), *board);
        proof {
            assert(old(towers)@.take(i as int + 1).drop_last() =~= old(towers)@.take(i as int));
            assert(old(towers)@[i as int] == t);
        }
        if t.cooldown_left > 0 {
            towers[i].cooldown_left = t.cooldown_left - 1;
            assert(tower_shot(t, *board).is_none());
        } else {
            let found = board.scan_nearest(
                t.row as usize,
                t.col as usize,
                t.attack_range as usize,
                ScanFilter::EnemyUnitsOf(t.team),
            );
            let tgt = target_at(board, found);
            proof {
                if found.is_some() {
                    assert(board.is_nearest(
                        ScanFilter::EnemyUnitsOf(t.team),
                        t.row as int,
                        t.col as int,
                        t.attack_range as int,
                        found.unwrap().0 as int,
                        found.unwrap().1 as int,
                    ));
                }
                assert(tower_shot(t, *board) == tgt);
            }
            if let Some(target) = tgt {
                let ghost before = projectiles.projectiles@;
                let effects = vec![GameplayEffect::Damage(t.attack_damage)];
                assert(effects@ =~= seq![GameplayEffect::Damage(t.attack_damage)]);
                projectiles.create_homing_projectile(
                    t.tower_id,
                    t.team,
                    target,
                    (t.row, t.col),
                    t.projectile_speed,
                    effects,
                    CellAnimation::ProjectileTrail,
                );
                assert(projectiles.projectiles@.subrange(0, launched_before.len() as int) =~= before.subrange(
                    0,
                    launched_before.len() as int,
                ));
                proof {
                    let sh = shots(old(towers)@.take(i as int + 1), *board);
                    assert(sh == before_shots.push((t, target)));
                    assert forall|j: int| 0 <= j < sh.len() implies is_tower_projectile(
                        #[trigger] projectiles.projectiles@[launched_before.len() + j],
                        sh[j].0,
                        sh[j].1,
                    ) by {
                        if j < before_shots.len() {
                            assert(projectiles.projectiles@[launched_before.len() + j]
                                == before[launched_before.len() + j]);
                        }
                    }
                }
                towers[i].cooldown_left = t.attack_cooldown;
            }
        }
        i = i + 1;
    }
    assert(old(towers)@.take(n as int) =~= old(towers)@);
}

/// A tower is accounted for when the list still holds it (same identifier
/// and place) or its cell is destroyed-tower terrain with no occupant.
pub open spec fn tower_accounted(towers: Seq<Tower>, b: Board, t: Tower) -> bool {
    (exists|j: int|
        0 <= j < towers.len() && (#[trigger] towers[j]).tower_id == t.tower_id && towers[j].row == t.row
            && towers[j].col == t.col) || b.destroyed_at(t.row as int, t.col as int)
}

pub open spec fn towers_on_board(towers: Seq<Tower>, b: Board) -> bool {
    forall|k: int| 0 <= k < towers.len() ==> b.in_bounds((#[trigger] towers[k]).row as int, towers[k].col as int)
}

/// Index of the first tower with this identifier.
fn find_tower(towers: &Vec<Tower>, id: TowerId) -> (r: Option<usize>)
    ensures
        r.is_none() ==> forall|k: int| 0 <= k < towers@.len() ==> (#[trigger] towers@[k]).tower_id != id,
        r.is_some() ==> r.unwrap() < towers@.len() && towers@[r.unwrap() as int].tower_id == id
            && forall|k: int| 0 <= k < r.unwrap() ==> (#[trigger] towers@[k]).tower_id != id,
{
    let mut i: usize = 0;
    while i < towers.len()
        invariant
            0 <= i <= towers@.len(),
            forall|k: int| 0 <= k < i ==> (#[trigger] towers@[k]).tower_id != id,
        decreases towers.len() - i,
    {
        if towers[i].tower_id == id {
            return Some(i);
        }
        i = i + 1;
    }
    None
}

/// Applies effects to tower `id`. A tower whose health reaches zero leaves
/// the tower list at once, and its cell becomes destroyed-tower terrain with
/// no occupant.
#[verifier::rlimit(100)]
#[verifier::spinoff_prover]
pub fn apply_to_tower(
    towers: &mut Vec<Tower>,
    board: &mut Board,
    id: TowerId,
    effects: &Vec<GameplayEffect>,
)
    requires
        old(board).wf(),
        towers_on_board(old(towers)@, *old(board)),
    ensures
        final(board).wf(),
        final(board).rows == old(board).rows,
        final(board).cols == old(board).cols,
        keeps_destroyed(*old(board), *final(board)),
        towers_on_board(final(towers)@, *final(board)),
        forall|t: Tower|
            tower_accounted(old(towers)@, *old(board), t) ==> #[trigger] tower_accounted(
                final(towers)@,
                *final(board),
                t,
            ),
        (forall|k: int| 0 <= k < old(towers)@.len() ==> (#[trigger] old(towers)@[k]).tower_id != id)
            ==> final(towers)@ == old(towers)@ && *final(board) == *old(board),
        forall|k: int|
            0 <= k < old(towers)@.len() && (#[trigger] old(towers)@[k]).tower_id == id && (forall|
                j: int,
            | 0 <= j < k ==> (#[trigger] old(towers)@[j]).tower_id != id) ==> {
                let t = old(towers)@[k];
                if health_after(t.health, effects@) == 0 {
                    &&& final(towers)@ == old(towers)@.remove(k)
                    &&& final(board).cells@ == old(board).with_cell(
                        t.row as int,
                        t.col as int,
                        Cell {
                            base: BaseTerrain::TowerDestroyed,
                            content: None,
                            ..old(board).cell_at(t.row as int, t.col as int)
                        },
                    )
                } else {
                    &&& final(towers)@ == old(towers)@.update(
                        k,
                        Tower { health: health_after(t.health, effects@), ..t },
                    )
                    &&& *final(board) == *old(board)
                }
            },
{
    match find_tower(towers, id) {
        None => {},
        Some(i) => {
            let t = towers[i];
            assert forall|k: int|
                0 <= k < old(towers)@.len() && (#[trigger] old(towers)@[k]).tower_id == id && (forall|
                    j: int,
                | 0 <= j < k ==> (#[trigger] old(towers)@[j]).tower_id != id) implies k == i by {
                if k > i {
                    assert(old(towers)@[i as int].tower_id == id);
                }
            }
            let h = health_after_effects(t.health, effects);
            if h == 0 {
                destroy_tower(board, t.row, t.col);
                towers.remove(i);
                proof {
                    let b0 = *old(board);
                    lemma_index_in_bounds(t.row as int, t.col as int, b0.rows as int, b0.cols as int);
                    assert(board.destroyed_at(t.row as int, t.col as int));
                    assert forall|u: Tower|
                        tower_accounted(old(towers)@, *old(board), u) implies #[trigger] tower_accounted(
                            towers@,
                            *board,
                            u,
                        ) by {
                        if !old(board).destroyed_at(u.row as int, u.col as int) {
                            let j = choose|j: int|
                                0 <= j < old(towers)@.len() && (#[trigger] old(towers)@[j]).tower_id
                                    == u.tower_id && old(towers)@[j].row == u.row && old(towers)@[j].col
                                    == u.col;
                            if j < i {
                                assert(towers@[j] == old(towers)@[j]);
                            } else if j > i {
                                assert(towers@[j - 1] == old(towers)@[j]);
                            }
                        }
                    }
                    assert forall|k: int| 0 <= k < towers@.len() implies board.in_bounds(
                        (#[trigger] towers@[k]).row as int,
                        towers@[k].col as int,
                    ) by {
                        if k < i {
                            assert(towers@[k] == old(towers)@[k]);
                        } else {
                            assert(towers@[k] == old(towers)@[k + 1]);
                        }
                    }
                }
            } else {
                towers.set(i, Tower { health: h, ..t });
                proof {
                    assert forall|u: Tower|
                        tower_accounted(old(towers)@, *old(board), u) implies #[trigger] tower_accounted(
                            towers@,
                            *board,
                            u,
                        ) by {
                        if !old(board).destroyed_at(u.row as int, u.col as int) {
                            let j = choose|j: int|
                                0 <= j < old(towers)@.len() && (#[trigger] old(towers)@[j]).tower_id
                                    == u.tower_id && old(towers)@[j].row == u.row && old(towers)@[j].col
                                    == u.col;
                            assert(towers@[j].tower_id == u.tower_id);
                        }
                    }
                    assert forall|k: int| 0 <= k < towers@.len() implies board.in_bounds(
                        (#[trigger] towers@[k]).row as int,
                        towers@[k].col as int,
                    ) by {
                        assert(old(towers)@[k] == old(towers)@[k]);
                    }
                }
            }
        },
    }
}

/// Turns a tower's cell into destroyed-tower terrain and removes its occupant.
fn destroy_tower(board: &mut Board, row: u16, col: u16)
    requires
        old(board).wf(),
    ensures
        final(board).wf(),
        keeps_destroyed(*old(board), *final(board)),
        final(board).rows == old(board).rows,
        final(board).cols == old(board).cols,
        final(board).cells@ == old(board).with_cell(
            row as int,
            col as int,
            Cell {
                base: BaseTerrain::TowerDestroyed,
                content: None,
                ..old(board).cell_at(row as int, col as int)
            },
        ),
{
    proof {
        if old(board).in_bounds(row as int, col as int) {
            lemma_index_in_bounds(row as int, col as int, old(board).rows as int, old(board).cols as int);
        }
    }
    let ghost b0 = *board;
    board.set_terrain(BaseTerrain::TowerDestroyed, row as usize, col as usize);
    let ghost b1 = *board;
    proof {
        lemma_with_cell_keeps_destroyed(b0, b1, row as int, col as int, Cell { base: BaseTerrain::TowerDestroyed, ..b0.cell_at(row as int, col as int) });
    }
    board.clear_cell(row as usize, col as usize);
    proof {
        lemma_with_cell_keeps_destroyed(b1, *board, row as int, col as int, Cell { content: None, ..b1.cell_at(row as int, col as int) });
        lemma_keeps_destroyed_trans(b0, b1, *board);
    }
    proof {
        if old(board).in_bounds(row as int, col as int) {
            assert(board.cells@ =~= old(board).with_cell(
                row as int,
                col as int,
                Cell {
                    base: BaseTerrain::TowerDestroyed,
                    content: None,
                    ..old(board).cell_at(row as int, col as int)
                },
            ));
        }
    }
}

/// Applies effects to minion `id`. A minion that dies leaves the board and
/// the list, and its death position and team are recorded for experience.
pub fn apply_to_minion(
    minions: &mut Vec<Minion>,
    board: &mut Board,
    dead: &mut Vec<(u16, u16, Team)>,
    id: MinionId,
    effects: &Vec<GameplayEffect>,
)
    requires
        old(board).wf(),
    ensures
        final(board).wf(),
        final(board).rows == old(board).rows,
        final(board).cols == old(board).cols,
        keeps_destroyed(*old(board), *final(board)),
        final(minions)@.len() <= old(minions)@.len(),
        (forall|k: int| 0 <= k < old(minions)@.len() ==> (#[trigger] old(minions)@[k]).id != id)
            ==> final(minions)@ == old(minions)@ && *final(board) == *old(board) && final(dead)@
            == old(dead)@,
        forall|k: int|
            0 <= k < old(minions)@.len() && (#[trigger] old(minions)@[k]).id == id && (forall|
                j: int,
            | 0 <= j < k ==> (#[trigger] old(minions)@[j]).id != id) ==> {
                let m = old(minions)@[k];
                if health_after(m.health, effects@) == 0 {
                    &&& final(minions)@ == old(minions)@.remove(k)
                    &&& final(dead)@ == old(dead)@.push((m.row, m.col, m.team))
                    &&& final(board).cells@ == old(board).with_cell(
                        m.row as int,
                        m.col as int,
                        Cell { content: None, ..old(board).cell_at(m.row as int, m.col as int) },
                    )
                } else {
                    let n = final(minions)@[k];
                    &&& final(minions)@ == old(minions)@.update(k, n)
                    &&& n == (Minion { health: health_after(m.health, effects@), buffs: n.buffs, ..m })
                    &&& n.buffs@ == m.buffs@ + stuns_of(effects@)
                    &&& *final(board) == *old(board)
                    &&& final(dead)@ == old(dead)@
                }
            },
{
    let mut i: usize = 0;
    while i < minions.len()
        invariant
            0 <= i <= minions@.len(),
            minions@ == old(minions)@,
            *board == *old(board),
            board.wf(),
            dead@ == old(dead)@,
            forall|k: int| 0 <= k < i ==> (#[trigger] minions@[k]).id != id,
        decreases minions.len() - i,
    {
        if minions[i].id == id {
            assert forall|k: int|
                0 <= k < old(minions)@.len() && (#[trigger] old(minions)@[k]).id == id && (forall|
                    j: int,
                | 0 <= j < k ==> (#[trigger] old(minions)@[j]).id != id) implies k == i by {
                if k > i {
                    assert(old(minions)@[i as int].id == id);
                }
            }
            minions[i].take_effect(effects);
            if minions[i].is_dead() {
                let row = minions[i].row;
                let col = minions[i].col;
                dead.push((row, col, minions[i].team));
                let ghost b0 = *board;
                board.clear_cell(row as usize, col as usize);
                proof {
                    lemma_with_cell_keeps_destroyed(b0, *board, row as int, col as int, Cell { content: None, ..b0.cell_at(row as int, col as int) });
                }
                minions.remove(i);
                assert(minions@ =~= old(minions)@.remove(i as int));
            }
            return ;
        }
        i = i + 1;
    }
}

/// Whether `k` is the position of the first champion of player `id`.
pub open spec fn first_with_id(champs: Seq<Champion>, id: PlayerId, k: int) -> bool {
    &&& 0 <= k < champs.len()
    &&& champs[k].player_id == id
    &&& forall|j: int| 0 <= j < k ==> (#[trigger] champs[j]).player_id != id
}

/// Applies effects to champion `id`; champions are never removed.
pub fn apply_to_champion(champs: &mut Vec<Champion>, id: PlayerId, effects: &Vec<GameplayEffect>)
    ensures
        final(champs)@.len() == old(champs)@.len(),
        forall|k: int|
            0 <= k < old(champs)@.len() ==> {
                let c = #[trigger] old(champs)@[k];
                let d = final(champs)@[k];
                &&& d == (Champion { health: d.health, buffs: d.buffs, ..c })
                &&& if first_with_id(old(champs)@, id, k) {
                    &&& d.health == health_after(c.health, effects@)
                    &&& d.buffs@ == c.buffs@ + stuns_of(effects@)
                } else {
                    d == c
                }
                &&& d.health <= c.health
            },
{
    let n = champs.len();
    let mut i: usize = 0;
    while i < n
        invariant
            n == champs@.len(),
            0 <= i <= n,
            champs@ == old(champs)@,
            forall|k: int| 0 <= k < i ==> (#[trigger] champs@[k]).player_id != id,
        decreases n - i,
    {
        if champs[i].player_id == id {
            champs[i].take_effect(effects);
            proof {
                lemma_health_after_le(old(champs)@[i as int].health, effects@);
            }
            return ;
        }
        i = i + 1;
    }
}

/// Health of a base after the effects aimed at it.
fn apply_to_base(base: &mut Base, effects: &Vec<GameplayEffect>)
    ensures
        *final(base) == (Base { health: health_after(old(base).health, effects@), ..*old(base) }),
        final(base).health <= old(base).health,
        old(base).health == 0 ==> final(base).health == 0,
{
    proof {
        lemma_health_after_le(base.health, effects@);
    }
    base.health = health_after_effects(base.health, effects);
}

/// The effects that a queue aims at `t`, in queue order.
pub open spec fn effects_for(pending: Seq<PendingEffect>, t: Target) -> Seq<GameplayEffect>
    decreases pending.len(),
{
    if pending.len() == 0 {
        Seq::empty()
    } else {
        let prev = effects_for(pending.drop_last(), t);
        if pending.last().target == t {
            prev + pending.last().effects@
        } else {
            prev
        }
    }
}

/// Applying two lists of effects one after the other is applying their
/// concatenation.
pub proof fn lemma_health_after_concat(h: u32, a: Seq<GameplayEffect>, b: Seq<GameplayEffect>)
    ensures
        health_after(h, a + b) == health_after(health_after(h, a), b),
    decreases b.len(),
{
    if b.len() == 0 {
        assert(a + b =~= a);
    } else {
        lemma_health_after_concat(h, a, b.drop_last());
        assert((a + b).drop_last() =~= a + b.drop_last());
        assert((a + b).last() == b.last());
    }
}

/// The centralized effect pass: every queued effect list, in queue order,
/// is applied to the entity it aims at; effects on entities that are gone
/// are dropped. Monster kills return their experience rewards.
#[verifier::rlimit(100)]
#[verifier::spinoff_prover]
pub fn apply_pending(
    pending: &Vec<PendingEffect>,
    champs: &mut Vec<Champion>,
    towers: &mut Vec<Tower>,
    minions: &mut Vec<Minion>,
    dead_minions: &mut Vec<(u16, u16, Team)>,
    monsters: &mut MonsterManager,
    red_base: &mut Base,
    blue_base: &mut Base,
    board: &mut Board,
    rewards: &mut Vec<(PlayerId, u8)>,
)
    requires
        old(board).wf(),
        towers_on_board(old(towers)@, *old(board)),
    ensures
        keeps_destroyed(*old(board), *final(board)),
        towers_on_board(final(towers)@, *final(board)),
        forall|k: int|
            0 <= k < old(towers)@.len() ==> tower_accounted(
                final(towers)@,
                *final(board),
                #[trigger] old(towers)@[k],
            ),
        final(board).wf(),
        final(board).rows == old(board).rows,
        final(board).cols == old(board).cols,
        final(champs)@.len() == old(champs)@.len(),
        forall|k: int|
            0 <= k < old(champs)@.len() ==> {
                let c = #[trigger] old(champs)@[k];
                let d = final(champs)@[k];
                &&& d == (Champion { health: d.health, buffs: d.buffs, ..c })
                &&& buffs_extend(c, d)
                &&& d.health <= c.health
            },
        final(red_base).team == old(red_base).team,
        final(blue_base).team == old(blue_base).team,
        final(red_base).health <= old(red_base).health,
        final(blue_base).health <= old(blue_base).health,
        final(red_base).health == health_after(
            old(red_base).health,
            effects_for(pending@, Target::Base(Team::Red)),
        ),
        final(blue_base).health == health_after(
            old(blue_base).health,
            effects_for(pending@, Target::Base(Team::Blue)),
        ),
        forall|k: int|
            first_with_id(old(champs)@, (#[trigger] old(champs)@[k]).player_id, k) ==> final(champs)@[k].health == health_after(
                old(champs)@[k].health,
                effects_for(pending@, Target::Champion(old(champs)@[k].player_id)),
            ),
{
    let n = pending.len();
    let mut i: usize = 0;
    while i < n
        invariant
            n == pending@.len(),
            0 <= i <= n,
            board.wf(),
            keeps_destroyed(*old(board), *board),
            towers_on_board(towers@, *board),
            forall|k: int|
                0 <= k < old(towers)@.len() ==> tower_accounted(towers@, *board, #[trigger] old(towers)@[k]),
            board.rows == old(board).rows,
            board.cols == old(board).cols,
            champs@.len() == old(champs)@.len(),
            forall|k: int|
                0 <= k < old(champs)@.len() ==> {
                    let c = #[trigger] old(champs)@[k];
                    let d = champs@[k];
                    &&& d == (Champion { health: d.health, buffs: d.buffs, ..c })
                    &&& buffs_extend(c, d)
                    &&& d.health <= c.health
                },
            red_base.team == old(red_base).team,
            blue_base.team == old(blue_base).team,
            red_base.health <= old(red_base).health,
            blue_base.health <= old(blue_base).health,
            red_base.health == health_after(
                old(red_base).health,
                effects_for(pending@.take(i as int), Target::Base(Team::Red)),
            ),
            blue_base.health == health_after(
                old(blue_base).health,
                effects_for(pending@.take(i as int), Target::Base(Team::Blue)),
            ),
            forall|k: int|
                first_with_id(old(champs)@, (#[trigger] old(champs)@[k]).player_id, k) ==> champs@[k].health
                    == health_after(
                    old(champs)@[k].health,
                    effects_for(pending@.take(i as int), Target::Champion(old(champs)@[k].player_id)),
                ),
        decreases n - i,
    {
        let ghost champs_before = champs@;
        let ghost board_step = *board;
        let ghost towers_step = towers@;
        let ghost tk = pending@.take(i as int);
        proof {
            assert forall|j: int| 0 <= j < champs_before.len() implies (#[trigger] champs_before[j]).player_id
                == old(champs)@[j].player_id by {
                assert(old(champs)@[j] == old(champs)@[j]);
            }
            assert(pending@.take(i as int + 1).drop_last() =~= tk);
            assert(pending@.take(i as int + 1).last() == pending@[i as int]);
            lemma_health_after_concat(old(red_base).health, effects_for(tk, Target::Base(Team::Red)), pending@[i as int].effects@);
            lemma_health_after_concat(old(blue_base).health, effects_for(tk, Target::Base(Team::Blue)), pending@[i as int].effects@);
        }
        let effects = &pending[i].effects;
        match pending[i].target {
            Target::Tower(id) => apply_to_tower(towers, board, id, effects),
            Target::Minion(id) => apply_to_minion(minions, board, dead_minions, id, effects),
            Target::Champion(id) => {
                apply_to_champion(champs, id, effects);
                proof {
                    assert forall|k: int| 0 <= k < champs@.len() implies buffs_extend(
                        #[trigger] old(champs)@[k],
                        champs@[k],
                    ) by {
                        assert(old(champs)@[k] == old(champs)@[k]);
                        assert(buffs_extend(champs_before[k], champs@[k]));
                        lemma_buffs_extend_trans(old(champs)@[k], champs_before[k], champs@[k]);
                    }
                    assert forall|k: int|
                        first_with_id(old(champs)@, (#[trigger] old(champs)@[k]).player_id, k) implies champs@[k].health
                            == health_after(
                            old(champs)@[k].health,
                            effects_for(pending@.take(i as int + 1), Target::Champion(old(champs)@[k].player_id)),
                        ) by {
                        let pid = old(champs)@[k].player_id;
                        lemma_health_after_concat(old(champs)@[k].health, effects_for(tk, Target::Champion(pid)), effects@);
                        assert forall|j: int| 0 <= j < k implies (#[trigger] champs_before[j]).player_id != pid by {
                            assert(old(champs)@[j].player_id != pid);
                        }
                        if pid == id {
                            assert(first_with_id(champs_before, id, k));
                        } else {
                            assert(!first_with_id(champs_before, id, k));
                        }
                    }
                }
            },
            Target::Base(team) => match team {
                Team::Red => apply_to_base(red_base, effects),
                Team::Blue => apply_to_base(blue_base, effects),
            },
            Target::Monster(id) => {
                if let Some(attacker) = pending[i].attacker {
                    if let Some(reward) = monsters.apply_effects_to_monster(board, id, effects, attacker) {
                        rewards.push(reward);
                    }
                }
            },
        }
        proof {
            lemma_keeps_destroyed_trans(*old(board), board_step, *board);
            assert forall|k: int| 0 <= k < old(towers)@.len() implies tower_accounted(
                towers@,
                *board,
                #[trigger] old(towers)@[k],
            ) by {
                let t = old(towers)@[k];
                assert(tower_accounted(towers_step, board_step, t));
                if towers@ == towers_step {
                    if board_step.destroyed_at(t.row as int, t.col as int) {
                        assert(board.destroyed_at(t.row as int, t.col as int));
                    }
                }
            }
        }
        i = i + 1;
    }
    assert(pending@.take(n as int) =~= pending@);
}

/// Index of the first champion of player `id`.
pub fn find_champion(champs: &Vec<Champion>, id: PlayerId) -> (r: Option<usize>)
    ensures
        r.is_none() ==> forall|k: int| 0 <= k < champs@.len() ==> (#[trigger] champs@[k]).player_id != id,
        r.is_some() ==> r.unwrap() < champs@.len() && champs@[r.unwrap() as int].player_id == id
            && forall|k: int| 0 <= k < r.unwrap() ==> (#[trigger] champs@[k]).player_id != id,
{
    let mut i: usize = 0;
    while i < champs.len()
        invariant
            0 <= i <= champs@.len(),
            forall|k: int| 0 <= k < i ==> (#[trigger] champs@[k]).player_id != id,
        decreases champs.len() - i,
    {
        if champs[i].player_id == id {
            return Some(i);
        }
        i = i + 1;
    }
    None
}

/// Level and experience after each reward for player `id`, in order.
pub open spec fn rewarded(level: nat, xp: nat, rewards: Seq<(PlayerId, u8)>, id: PlayerId) -> (nat, nat)
    decreases rewards.len(),
{
    if rewards.len() == 0 {
        (level, xp)
    } else {
        let p = rewarded(level, xp, rewards.drop_last(), id);
        if rewards.last().0 == id {
            gained(p.0 as u8, p.1 as u32, rewards.last().1 as u32)
        } else {
            p
        }
    }
}

/// Credits each reward's experience to its champion, if still present.
pub fn credit_rewards(champs: &mut Vec<Champion>, rewards: &Vec<(PlayerId, u8)>)
    requires
        forall|k: int| 0 <= k < old(champs)@.len() ==> (#[trigger] old(champs)@[k]).wf(),
    ensures
        final(champs)@.len() == old(champs)@.len(),
        forall|k: int|
            0 <= k < old(champs)@.len() ==> {
                let c = #[trigger] old(champs)@[k];
                let d = final(champs)@[k];
                &&& d.wf()
                &&& d == (Champion { level: d.level, xp: d.xp, ..c })
                &&& if first_with_id(old(champs)@, c.player_id, k) {
                    (d.level as nat, d.xp as nat) == rewarded(c.level as nat, c.xp as nat, rewards@, c.player_id)
                } else {
                    d == c
                }
            },
{
    let n = champs.len();
    let mut r: usize = 0;
    while r < rewards.len()
        invariant
            n == champs@.len(),
            n == old(champs)@.len(),
            0 <= r <= rewards@.len(),
            forall|k: int| 0 <= k < n ==> (#[trigger] champs@[k]).wf(),
            forall|k: int| 0 <= k < n ==> (#[trigger] champs@[k]).player_id == old(champs)@[k].player_id,
            forall|k: int|
                0 <= k < n ==> {
                    let c = #[trigger] old(champs)@[k];
                    let d = champs@[k];
                    &&& d.wf()
                    &&& d == (Champion { level: d.level, xp: d.xp, ..c })
                    &&& if first_with_id(old(champs)@, c.player_id, k) {
                        (d.level as nat, d.xp as nat) == rewarded(
                            c.level as nat,
                            c.xp as nat,
                            rewards@.take(r as int),
                            c.player_id,
                        )
                    } else {
                        d == c
                    }
                },
        decreases rewards.len() - r,
    {
        let (id, xp) = rewards[r];
        let ghost before = champs@;
        proof {
            assert(rewards@.take(r as int + 1).drop_last() =~= rewards@.take(r as int));
            assert(rewards@.take(r as int + 1).last() == (id, xp));
        }
        if let Some(i) = find_champion(champs, id) {
            assert(old(champs)@[i as int] == old(champs)@[i as int]);
            champs[i].add_xp(xp as u32);
            proof {
                assert forall|j: int| 0 <= j < i implies (#[trigger] old(champs)@[j]).player_id != id by {
                    assert(before[j].player_id != id);
                }
                assert(first_with_id(old(champs)@, id, i as int));
            }
        }
        proof {
            assert forall|k: int| 0 <= k < n implies {
                let c = #[trigger] old(champs)@[k];
                let d = champs@[k];
                &&& d.wf()
                &&& d == (Champion { level: d.level, xp: d.xp, ..c })
                &&& if first_with_id(old(champs)@, c.player_id, k) {
                    (d.level as nat, d.xp as nat) == rewarded(
                        c.level as nat,
                        c.xp as nat,
                        rewards@.take(r as int + 1),
                        c.player_id,
                    )
                } else {
                    d == c
                }
            } by {
                assert(before[k] == before[k]);
                assert(champs@[k].player_id == old(champs)@[k].player_id);
            }
        }
        r = r + 1;
    }
    assert(rewards@.take(rewards@.len() as int) =~= rewards@);
}

/// Carries out the board commands of one kind: clears when `draw` is false,
/// draws when it is true. Commands outside the board are ignored.
fn apply_commands(board: &mut Board, commands: &Vec<AnimationCommand>, draw: bool)
    requires
        old(board).wf(),
    ensures
        final(board).wf(),
        final(board).rows == old(board).rows,
        final(board).cols == old(board).cols,
        keeps_destroyed(*old(board), *final(board)),
{
    let mut i: usize = 0;
    while i < commands.len()
        invariant
            0 <= i <= commands@.len(),
            board.wf(),
            board.rows == old(board).rows,
            board.cols == old(board).cols,
            keeps_destroyed(*old(board), *board),
        decreases commands.len() - i,
    {
        let ghost b0 = *board;
        match commands[i] {
            AnimationCommand::Draw { row, col, animation_type } => {
                if draw {
                    board.place_animation(animation_type, row as usize, col as usize);
                    proof {
                        lemma_with_cell_keeps_destroyed(b0, *board, row as int, col as int, Cell { animation: Some(animation_type), ..b0.cell_at(row as int, col as int) });
                        lemma_keeps_destroyed_trans(*old(board), b0, *board);
                    }
                }
            },
            AnimationCommand::Clear { row, col } => {
                if !draw {
                    board.clean_animation(row as usize, col as usize);
                    proof {
                        lemma_with_cell_keeps_destroyed(b0, *board, row as int, col as int, Cell { animation: None, ..b0.cell_at(row as int, col as int) });
                        lemma_keeps_destroyed_trans(*old(board), b0, *board);
                    }
                }
            },
            AnimationCommand::Done => {},
        }
        i = i + 1;
    }
}

/// Identifiers and positions of every entity an animation may follow:
/// champions, then towers, minions and monsters.
pub open spec fn owners_of(
    champs: Seq<Champion>,
    towers: Seq<Tower>,
    minions: Seq<Minion>,
    monsters: Seq<Monster>,
) -> Seq<(usize, u16, u16)> {
    champs.map_values(|c: Champion| (c.player_id, c.row, c.col)) + towers.map_values(
        |t: Tower| (t.tower_id, t.row, t.col),
    ) + minions.map_values(|m: Minion| (m.id, m.row, m.col)) + monsters.map_values(
        |m: Monster| (m.id, m.row, m.col),
    )
}

fn collect_owners(
    champs: &Vec<Champion>,
    towers: &Vec<Tower>,
    minions: &Vec<Minion>,
    monsters: &MonsterManager,
) -> (owners: Vec<(usize, u16, u16)>)
    ensures
        owners@ == owners_of(champs@, towers@, minions@, monsters.active_monsters@),
{
    let mut owners: Vec<(usize, u16, u16)> = Vec::new();
    let mut i: usize = 0;
    while i < champs.len()
        invariant
            0 <= i <= champs@.len(),
            owners@ == champs@.take(i as int).map_values(|c: Champion| (c.player_id, c.row, c.col)),
        decreases champs.len() - i,
    {
        owners.push((champs[i].player_id, champs[i].row, champs[i].col));
        proof {
            assert(owners@ =~= champs@.take(i as int + 1).map_values(
                |c: Champion| (c.player_id, c.row, c.col),
            ));
        }
        i = i + 1;
    }
    assert(champs@.take(champs@.len() as int) =~= champs@);
    let ghost base1 = owners@;
    i = 0;
    while i < towers.len()
        invariant
            0 <= i <= towers@.len(),
            owners@ == base1 + towers@.take(i as int).map_values(|t: Tower| (t.tower_id, t.row, t.col)),
        decreases towers.len() - i,
    {
        owners.push((towers[i].tower_id, towers[i].row, towers[i].col));
        proof {
            assert(owners@ =~= base1 + towers@.take(i as int + 1).map_values(
                |t: Tower| (t.tower_id, t.row, t.col),
            ));
        }
        i = i + 1;
    }
    assert(towers@.take(towers@.len() as int) =~= towers@);
    let ghost base2 = owners@;
    i = 0;
    while i < minions.len()
        invariant
            0 <= i <= minions@.len(),
            owners@ == base2 + minions@.take(i as int).map_values(|m: Minion| (m.id, m.row, m.col)),
        decreases minions.len() - i,
    {
        owners.push((minions[i].id, minions[i].row, minions[i].col));
        proof {
            assert(owners@ =~= base2 + minions@.take(i as int + 1).map_values(
                |m: Minion| (m.id, m.row, m.col),
            ));
        }
        i = i + 1;
    }
    assert(minions@.take(minions@.len() as int) =~= minions@);
    let ghost base3 = owners@;
    let ms = &monsters.active_monsters;
    i = 0;
    while i < ms.len()
        invariant
            0 <= i <= ms@.len(),
            owners@ == base3 + ms@.take(i as int).map_values(|m: Monster| (m.id, m.row, m.col)),
        decreases ms.len() - i,
    {
        owners.push((ms[i].id, ms[i].row, ms[i].col));
        proof {
            assert(owners@ =~= base3 + ms@.take(i as int + 1).map_values(
                |m: Monster| (m.id, m.row, m.col),
            ));
        }
        i = i + 1;
    }
    assert(ms@.take(ms@.len() as int) =~= ms@);
    assert(owners@ =~= owners_of(champs@, towers@, minions@, monsters.active_monsters@));
    owners
}

/// Every entity a projectile may be aimed at, with its position.
fn collect_targets(
    champs: &Vec<Champion>,
    towers: &Vec<Tower>,
    minions: &Vec<Minion>,
    monsters: &MonsterManager,
) -> (targets: Vec<(Target, u16, u16)>) {
    let mut targets: Vec<(Target, u16, u16)> = Vec::new();
    let mut i: usize = 0;
    while i < champs.len()
        decreases champs.len() - i,
    {
        targets.push((Target::Champion(champs[i].player_id), champs[i].row, champs[i].col));
        i = i + 1;
    }
    i = 0;
    while i < towers.len()
        decreases towers.len() - i,
    {
        targets.push((Target::Tower(towers[i].tower_id), towers[i].row, towers[i].col));
        i = i + 1;
    }
    i = 0;
    while i < minions.len()
        decreases minions.len() - i,
    {
        targets.push((Target::Minion(minions[i].id), minions[i].row, minions[i].col));
        i = i + 1;
    }
    i = 0;
    while i < monsters.active_monsters.len()
        decreases monsters.active_monsters.len() - i,
    {
        let m = &monsters.active_monsters[i];
        targets.push((Target::Monster(m.id), m.row, m.col));
        i = i + 1;
    }
    targets
}

/// The view of the board and vitals that each champion's player receives.
pub fn build_updates(champs: &Vec<Champion>, board: &Board) -> (updates: Vec<PlayerUpdate>)
    requires
        board.wf(),
        forall|k: int| 0 <= k < champs@.len() ==> (#[trigger] champs@[k]).wf(),
    ensures
        updates@.len() == champs@.len(),
        forall|k: int|
            0 <= k < champs@.len() ==> {
                let c = #[trigger] champs@[k];
                let u = updates@[k];
                &&& u.player_id == c.player_id
                &&& u.health == c.health
                &&& u.max_health == c.max_health
                &&& u.mana == c.mana
                &&& u.max_mana == c.max_mana
                &&& u.level == c.level
                &&& u.xp == c.xp
                &&& u.xp_needed == if c.level < MAX_LEVEL { xp_needed(c.level as nat) as u32 } else { 0 }
                &&& u.board@ == board.encoding()
                &&& run_total(u.board@) == board.rows * board.cols
            },
{
    proof {
        lemma_encoding_covers_board(*board);
    }
    let mut updates: Vec<PlayerUpdate> = Vec::new();
    let mut i: usize = 0;
    while i < champs.len()
        invariant
            0 <= i <= champs@.len(),
            board.wf(),
            run_total(board.encoding()) == board.rows * board.cols,
            forall|k: int| 0 <= k < champs@.len() ==> (#[trigger] champs@[k]).wf(),
            updates@.len() == i,
            forall|k: int|
                0 <= k < i ==> {
                    let c = #[trigger] champs@[k];
                    let u = updates@[k];
                    &&& u.player_id == c.player_id
                    &&& u.health == c.health
                    &&& u.max_health == c.max_health
                    &&& u.mana == c.mana
                    &&& u.max_mana == c.max_mana
                    &&& u.level == c.level
                    &&& u.xp == c.xp
                    &&& u.xp_needed == if c.level < MAX_LEVEL { xp_needed(c.level as nat) as u32 } else { 0 }
                    &&& u.board@ == board.encoding()
                    &&& run_total(u.board@) == board.rows * board.cols
                },
        decreases champs.len() - i,
    {
        let c = &champs[i];
        let health = c.get_health();
        let xp_needed = match c.xp_for_next_level() {
            Some(x) => x,
            None => 0,
        };
        let runs = board.run_length_encode(c.row, c.col);
        updates.push(
            PlayerUpdate {
                player_id: c.player_id,
                health: health.0,
                max_health: health.1,
                mana: c.mana,
                max_mana: c.max_mana,
                level: c.level,
                xp: c.xp,
                xp_needed,
                board: runs,
            },
        );
        i = i + 1;
    }
    updates
}

/// The authoritative match: all entities, the board, and the tick pipeline.
pub struct GameManager {
    pub players_count: usize,
    pub max_players: usize,
    pub state: MatchState,
    pub player_action: Vec<(PlayerId, Action)>,
    pub champions: Vec<Champion>,
    pub towers: Vec<Tower>,
    pub red_base: Base,
    pub blue_base: Base,
    pub minion_manager: MinionManager,
    pub monster_manager: MonsterManager,
    pub projectile_manager: ProjectileManager,
    pub animations: Vec<Animation>,
    pub board: Board,
    pub tick: u64,
    /// Where minions died during the last tick, with their team.
    pub dead_minion_positions: Vec<(u16, u16, Team)>,
    /// The effects the last tick applied, in the order they were applied.
    pub last_effects: Vec<PendingEffect>,
    /// The monster-kill rewards the last tick credited, in order.
    pub last_rewards: Vec<(PlayerId, u8)>,
    pub config: GameConfig,
    pub layout: MapLayout,
    /// When the match started, in milliseconds on the caller's clock.
    pub game_start_time: Option<u64>,
    pub initial_monsters_spawned: bool,
    pub next_player_id: PlayerId,
}

/// The spell of the configuration with this identifier.
pub open spec fn first_spell(spells: Seq<Spell>, id: u8) -> Option<Spell>
    decreases spells.len(),
{
    if spells.len() == 0 {
        None
    } else if spells[0].id == id {
        Some(spells[0])
    } else {
        first_spell(spells.drop_first(), id)
    }
}

pub open spec fn opt_seq(o: Option<Spell>) -> Seq<Spell> {
    match o {
        Some(x) => seq![x],
        None => Seq::empty(),
    }
}

/// The spells a joining player gets: the configured spell of each chosen
/// identifier, once each.
pub open spec fn chosen_spells(spells: Seq<Spell>, id1: u8, id2: u8) -> Seq<Spell> {
    opt_seq(first_spell(spells, id1)) + if id2 != id1 {
        opt_seq(first_spell(spells, id2))
    } else {
        Seq::empty()
    }
}

fn find_spell(spells: &Vec<Spell>, id: u8) -> (r: Option<Spell>)
    ensures
        r == first_spell(spells@, id),
{
    let mut i: usize = 0;
    assert(spells@.subrange(0, spells@.len() as int) =~= spells@);
    while i < spells.len()
        invariant
            0 <= i <= spells@.len(),
            first_spell(spells@, id) == first_spell(spells@.subrange(i as int, spells@.len() as int), id),
        decreases spells.len() - i,
    {
        proof {
            let rest = spells@.subrange(i as int, spells@.len() as int);
            assert(rest.drop_first() =~= spells@.subrange(i as int + 1, spells@.len() as int));
        }
        if spells[i].id == id {
            return Some(spells[i]);
        }
        i = i + 1;
    }
    None
}

/// Whether `(r, c)` lies in the 3 x 3 area whose top-left corner is `corner`.
pub open spec fn in_base_area(corner: (u16, u16), r: int, c: int) -> bool {
    corner.0 <= r < corner.0 + 3 && corner.1 <= c < corner.1 + 3
}

/// Marks the 3 x 3 cells of a base; every other cell stays as it was.
fn place_base(board: &mut Board, corner: (u16, u16), team: Team)
    requires
        old(board).wf(),
        corner.0 + 2 < old(board).rows,
        corner.1 + 2 < old(board).cols,
    ensures
        final(board).wf(),
        final(board).rows == old(board).rows,
        final(board).cols == old(board).cols,
        forall|r: int, c: int|
            #![trigger final(board).cell_at(r, c)]
            old(board).in_bounds(r, c) ==> if in_base_area(corner, r, c) {
                final(board).cell_at(r, c).content == Some(CellContent::Base(team))
            } else {
                final(board).cell_at(r, c) == old(board).cell_at(r, c)
            },
{
    let mut i: u16 = 0;
    while i < 3
        invariant
            0 <= i <= 3,
            board.wf(),
            board.rows == old(board).rows,
            board.cols == old(board).cols,
            corner.0 + 2 < old(board).rows,
            corner.1 + 2 < old(board).cols,
            forall|r: int, c: int|
                #![trigger board.cell_at(r, c)]
                old(board).in_bounds(r, c) ==> if in_base_area(corner, r, c) && r < corner.0 + i {
                    board.cell_at(r, c).content == Some(CellContent::Base(team))
                } else {
                    board.cell_at(r, c) == old(board).cell_at(r, c)
                },
        decreases 3 - i,
    {
        let mut j: u16 = 0;
        while j < 3
            invariant
                0 <= i < 3,
                0 <= j <= 3,
                board.wf(),
                board.rows == old(board).rows,
                board.cols == old(board).cols,
                corner.0 + 2 < old(board).rows,
                corner.1 + 2 < old(board).cols,
                forall|r: int, c: int|
                    #![trigger board.cell_at(r, c)]
                    old(board).in_bounds(r, c) ==> if in_base_area(corner, r, c) && (r < corner.0 + i
                        || (r == corner.0 + i && c < corner.1 + j)) {
                        board.cell_at(r, c).content == Some(CellContent::Base(team))
                    } else {
                        board.cell_at(r, c) == old(board).cell_at(r, c)
                    },
            decreases 3 - j,
        {
            let ghost b0 = *board;
            let r0 = corner.0 as usize + i as usize;
            let c0 = corner.1 as usize + j as usize;
            board.place_cell(CellContent::Base(team), r0, c0);
            proof {
                lemma_index_in_bounds(r0 as int, c0 as int, b0.rows as int, b0.cols as int);
                assert forall|r: int, c: int| old(board).in_bounds(r, c) implies #[trigger] board.cell_at(r, c)
                    == if r == r0 && c == c0 {
                    Cell { content: Some(CellContent::Base(team)), ..b0.cell_at(r, c) }
                } else {
                    b0.cell_at(r, c)
                } by {
                    lemma_index_in_bounds(r, c, b0.rows as int, b0.cols as int);
                    if r != r0 || c != c0 {
                        lemma_index_distinct(r, c, r0 as int, c0 as int, b0.cols as int);
                    }
                }
            }
            j = j + 1;
        }
        i = i + 1;
    }
}

impl GameManager {
    pub open spec fn wf(&self) -> bool {
        &&& self.board.wf()
        &&& self.players_count <= self.max_players
        &&& layout_fits(self.layout, self.board.rows, self.board.cols)
        &&& towers_on_board(self.towers@, self.board)
        &&& forall|k: int| 0 <= k < self.champions@.len() ==> (#[trigger] self.champions@[k]).wf()
        &&& forall|k: int|
            0 <= k < self.champions@.len() ==> (#[trigger] self.champions@[k]).player_id
                < self.next_player_id
        &&& forall|i: int, j: int|
            0 <= i < j < self.champions@.len() ==> (#[trigger] self.champions@[i]).player_id
                != (#[trigger] self.champions@[j]).player_id
    }

    /// Whether the match is under way.
    pub fn game_started(&self) -> (r: bool)
        ensures
            r == (self.state == MatchState::Active),
    {
        self.state == MatchState::Active
    }

    /// Sets up a match on `board`: towers, bases and managers. Fails when a
    /// position of the layout lies off the board, or when the towers would
    /// exhaust the identifier pool.
    pub fn new(config: GameConfig, layout: MapLayout, board: Board) -> (r: Result<
        GameManager,
        GameError,
    >)
        requires
            board.wf(),
        ensures
            !layout_fits(layout, board.rows, board.cols) ==> r == Err::<GameManager, GameError>(
                GameError::NotFoundCell,
            ),
            layout_fits(layout, board.rows, board.cols) && TOWER_ID_BASE + 2 * layout.tower_places@.len()
                > usize::MAX ==> r == Err::<GameManager, GameError>(GameError::GenerateIdError),
            layout_fits(layout, board.rows, board.cols) && TOWER_ID_BASE + 2 * layout.tower_places@.len()
                <= usize::MAX ==> r is Ok,
            r is Ok ==> {
                let g = r.unwrap();
                &&& g.wf()
                &&& g.state == MatchState::NotStarted
                &&& g.players_count == 0
                &&& g.max_players == config.max_players
                &&& g.champions@.len() == 0
                &&& g.towers@.len() == 2 * layout.tower_places@.len()
                &&& forall|k: int|
                    0 <= k < g.towers@.len() ==> (#[trigger] g.towers@[k]).tower_id == TOWER_ID_BASE + k
                        && g.towers@[k].team == if k % 2 == 0 { Team::Blue } else { Team::Red }
                        && g.towers@[k].health == config.tower.max_health
                &&& forall|r: int, c: int|
                    #![trigger g.board.cell_at(r, c)]
                    in_base_area(layout.red_base, r, c) ==> g.board.cell_at(r, c).content == Some(
                        CellContent::Base(Team::Red),
                    )
                &&& forall|r: int, c: int|
                    #![trigger g.board.cell_at(r, c)]
                    in_base_area(layout.blue_base, r, c) ==> g.board.cell_at(r, c).content == Some(
                        CellContent::Base(Team::Blue),
                    )
                &&& g.player_action@.len() == 0
                &&& g.animations@.len() == 0
                &&& g.projectile_manager.projectiles@.len() == 0
                &&& g.minion_manager.minions@.len() == 0
                &&& g.monster_manager.active_monsters@.len() == 0
                &&& g.red_base == (Base {
                    team: Team::Red,
                    row: layout.red_base.0,
                    col: layout.red_base.1,
                    health: config.base_health,
                })
                &&& g.blue_base == (Base {
                    team: Team::Blue,
                    row: layout.blue_base.0,
                    col: layout.blue_base.1,
                    health: config.base_health,
                })
                &&& g.board.rows == board.rows
                &&& g.board.cols == board.cols
                &&& g.game_start_time.is_none()
            },
    {
        let mut board = board;
        let ghost rows = board.rows;
        let ghost cols = board.cols;
        if !check_layout(&layout, board.rows, board.cols) {
            return Err(GameError::NotFoundCell);
        }
        let n = layout.tower_places.len();
        if n > (usize::MAX - TOWER_ID_BASE) / 2 {
            return Err(GameError::GenerateIdError);
        }
        let mut towers: Vec<Tower> = Vec::new();
        let mut i: usize = 0;
        while i < n
            invariant
                n == layout.tower_places@.len(),
                0 <= i <= n,
                n <= (usize::MAX - TOWER_ID_BASE) / 2,
                towers@.len() == 2 * i,
                layout_fits(layout, rows, cols),
                forall|k: int|
                    0 <= k < towers@.len() ==> (#[trigger] towers@[k]).row < rows && towers@[k].col < cols,
                forall|k: int|
                    0 <= k < towers@.len() ==> (#[trigger] towers@[k]).tower_id == TOWER_ID_BASE + k
                        && towers@[k].team == if k % 2 == 0 { Team::Blue } else { Team::Red }
                        && towers@[k].health == config.tower.max_health,
                board.wf(),
                board.rows == rows,
                board.cols == cols,
            decreases n - i,
        {
            let (r, c) = layout.tower_places[i];
            let blue = Tower::new(TOWER_ID_BASE + 2 * i, Team::Blue, r, c, config.tower);
            board.place_cell(CellContent::Tower(blue.tower_id, Team::Blue), r as usize, c as usize);
            let red = Tower::new(TOWER_ID_BASE + 2 * i + 1, Team::Red, c, r, config.tower);
            board.place_cell(CellContent::Tower(red.tower_id, Team::Red), c as usize, r as usize);
            towers.push(blue);
            towers.push(red);
            i = i + 1;
        }
        let red_base = Base {
            team: Team::Red,
            row: layout.red_base.0,
            col: layout.red_base.1,
            health: config.base_health,
        };
        let blue_base = Base {
            team: Team::Blue,
            row: layout.blue_base.0,
            col: layout.blue_base.1,
            health: config.base_health,
        };
        place_base(&mut board, layout.red_base, Team::Red);
        let ghost after_red = board;
        place_base(&mut board, layout.blue_base, Team::Blue);
        assert forall|r: int, c: int|
            #![trigger board.cell_at(r, c)]
            in_base_area(layout.red_base, r, c) implies board.cell_at(r, c).content == Some(
                CellContent::Base(Team::Red),
            ) by {
            assert(after_red.in_bounds(r, c));
            assert(after_red.cell_at(r, c).content == Some(CellContent::Base(Team::Red)));
        }
        let mut lane: Vec<(u16, u16)> = Vec::new();
        let mut k: usize = 0;
        while k < layout.lane.len()
            decreases layout.lane.len() - k,
        {
            lane.push(layout.lane[k]);
            k = k + 1;
        }
        let mut camps: Vec<(u16, u16)> = Vec::new();
        k = 0;
        while k < layout.camps.len()
            decreases layout.camps.len() - k,
        {
            camps.push(layout.camps[k]);
            k = k + 1;
        }
        let mut minion_manager = MinionManager::new(
            config.minion,
            lane,
            config.minions_per_wave,
            config.wave_interval_ms,
        );
        minion_manager.next_id = MINION_ID_BASE;
        minion_manager.wave_creation_time = u64::MAX;
        let mut monster_manager = MonsterManager::new(config.monster, camps);
        monster_manager.next_id = MONSTER_ID_BASE;
        let max_players = config.max_players;
        Ok(
            GameManager {
                players_count: 0,
                max_players,
                state: MatchState::NotStarted,
                player_action: Vec::new(),
                champions: Vec::new(),
                towers,
                red_base,
                blue_base,
                minion_manager,
                monster_manager,
                projectile_manager: ProjectileManager::new(),
                animations: Vec::new(),
                board,
                tick: 0,
                dead_minion_positions: Vec::new(),
                last_effects: Vec::new(),
                last_rewards: Vec::new(),
                config,
                layout,
                game_start_time: None,
                initial_monsters_spawned: false,
                next_player_id: 1,
            },
        )
    }

    /// Forgets every queued action.
    pub fn clear_action(&mut self)
        ensures
            final(self).player_action@.len() == 0,
            *final(self) == (GameManager { player_action: final(self).player_action, ..*old(self) }),
    {
        self.player_action.clear();
    }

    /// Lets a player join with two chosen spells, when a seat is free. The
    /// match starts at `now_ms` when the last seat is taken.
    pub fn add_player(&mut self, spell1_id: u8, spell2_id: u8, now_ms: u64) -> (r: Option<PlayerId>)
        requires
            old(self).wf(),
        ensures
            final(self).wf(),
            r.is_some() <==> old(self).players_count < old(self).max_players && old(self).next_player_id
                < usize::MAX,
            r.is_none() ==> *final(self) == *old(self),
            r.is_some() ==> {
                let id = r.unwrap();
                let team = Team::Blue;
                let c = final(self).champions@.last();
                &&& id == old(self).next_player_id
                &&& final(self).players_count == old(self).players_count + 1
                &&& final(self).champions@.len() == old(self).champions@.len() + 1
                &&& final(self).champions@.drop_last() == old(self).champions@
                &&& c.player_id == id
                &&& c.team == team
                &&& (c.row, c.col) == spawn_of(old(self).layout, team)
                &&& c.health == old(self).config.champion.max_health
                &&& c.spells@ == chosen_spells(old(self).config.spells@, spell1_id, spell2_id)
                &&& final(self).board.cells@ == old(self).board.with_cell(
                    c.row as int,
                    c.col as int,
                    Cell {
                        content: Some(CellContent::Champion(id, team)),
                        ..old(self).board.cell_at(c.row as int, c.col as int)
                    },
                )
                &&& final(self).board.cell_at(c.row as int, c.col as int).content == Some(
                    CellContent::Champion(id, team),
                )
                &&& (final(self).players_count == old(self).max_players ==> final(self).state
                    == MatchState::Active && final(self).game_start_time == Some(now_ms))
                &&& (final(self).players_count < old(self).max_players ==> final(self).state
                    == old(self).state)
            },
    {
        if self.players_count >= self.max_players || self.next_player_id == usize::MAX {
            return None;
        }
        let id = self.next_player_id;
        self.next_player_id = id + 1;
        self.players_count = self.players_count + 1;
        let mut spells: Vec<Spell> = Vec::new();
        if let Some(sp) = find_spell(&self.config.spells, spell1_id) {
            spells.push(sp);
        }
        assert(spells@ =~= opt_seq(first_spell(self.config.spells@, spell1_id)));
        if spell2_id != spell1_id {
            if let Some(sp) = find_spell(&self.config.spells, spell2_id) {
                spells.push(sp);
            }
        }
        assert(spells@ =~= chosen_spells(self.config.spells@, spell1_id, spell2_id));
        let team = Team::Blue;
        let spawn = match team {
            Team::Blue => self.layout.blue_spawn,
            Team::Red => self.layout.red_spawn,
        };
        let champion = Champion::new(id, team, spawn.0, spawn.1, self.config.champion, spells);
        self.champions.push(champion);
        assert(self.champions@.drop_last() =~= old(self).champions@);
        self.board.place_cell(CellContent::Champion(id, team), spawn.0 as usize, spawn.1 as usize);
        proof {
            lemma_index_in_bounds(spawn.0 as int, spawn.1 as int, self.board.rows as int, self.board.cols as int);
            assert forall|i: int, j: int|
                0 <= i < j < self.champions@.len() implies (#[trigger] self.champions@[i]).player_id
                != (#[trigger] self.champions@[j]).player_id by {
                if j < old(self).champions@.len() {
                    assert(self.champions@[i] == old(self).champions@[i]);
                    assert(self.champions@[j] == old(self).champions@[j]);
                } else {
                    assert(self.champions@[i] == old(self).champions@[i]);
                }
            }
        }
        if self.players_count == self.max_players {
            self.state = MatchState::Active;
            self.game_start_time = Some(now_ms);
            self.minion_manager.wave_creation_time = if now_ms > u64::MAX
                - self.config.first_wave_delay_ms {
                u64::MAX
            } else {
                now_ms + self.config.first_wave_delay_ms
            };
        }
        Some(id)
    }

    /// A player leaves: their champion and queued action go, and a match
    /// under way that loses a seat waits again. Nothing happens once the
    /// match is over or when nobody is connected.
    pub fn remove_player(&mut self, player_id: &PlayerId)
        requires
            old(self).wf(),
        ensures
            final(self).wf(),
            old(self).players_count == 0 ==> *final(self) == *old(self),
            old(self).players_count > 0 ==> {
                &&& final(self).players_count == old(self).players_count - 1
                &&& final(self).state == MatchState::NotStarted || final(self).state == old(self).state
                &&& forall|k: int|
                    0 <= k < final(self).champions@.len() ==> (
                    #[trigger] final(self).champions@[k]).player_id != *player_id || exists|j: int|
                        0 <= j < old(self).champions@.len() && old(self).champions@[j]
                            == final(self).champions@[k]
                &&& queued_action(final(self).player_action@, *player_id).is_none()
                &&& forall|k: int|
                    0 <= k < final(self).champions@.len() ==> (#[trigger] final(self).champions@[k]).player_id
                        != *player_id
                &&& final(self).state == if old(self).state == MatchState::Active {
                    MatchState::NotStarted
                } else {
                    old(self).state
                }
                &&& if exists|k: int| first_with_id(old(self).champions@, *player_id, k) {
                    let k = choose|k: int| first_with_id(old(self).champions@, *player_id, k);
                    let c = old(self).champions@[k];
                    &&& final(self).champions@ == old(self).champions@.remove(k)
                    &&& final(self).board.cells@ == old(self).board.with_cell(
                        c.row as int,
                        c.col as int,
                        Cell { content: None, ..old(self).board.cell_at(c.row as int, c.col as int) },
                    )
                } else {
                    &&& final(self).champions@ == old(self).champions@
                    &&& final(self).board == old(self).board
                }
            },
    {
        if self.players_count == 0 {
            return ;
        }
        self.players_count = self.players_count - 1;
        remove_actions_of(&mut self.player_action, *player_id);
        let ghost before = self.champions@;
        let ghost board_before = self.board;
        if let Some(i) = find_champion(&self.champions, *player_id) {
            let row = self.champions[i].row;
            let col = self.champions[i].col;
            self.board.clear_cell(row as usize, col as usize);
            self.champions.remove(i);
            proof {
                assert(first_with_id(before, *player_id, i as int));
                let k = choose|k: int| first_with_id(before, *player_id, k);
                if k < i {
                    assert(before[k].player_id != *player_id);
                }
                if k > i {
                    assert(before[i as int].player_id == *player_id);
                }
                assert(k == i);
                assert forall|k: int| 0 <= k < self.champions@.len() implies (#[trigger] self.champions@[k]).wf()
                    && self.champions@[k].player_id != *player_id && self.champions@[k].player_id
                    < self.next_player_id && exists|j: int|
                    0 <= j < before.len() && before[j] == self.champions@[k] by {
                    if k < i {
                        assert(before[k] == self.champions@[k]);
                    } else {
                        assert(before[k + 1] == self.champions@[k]);
                    }
                }
                assert forall|a: int, b: int|
                    0 <= a < b < self.champions@.len() implies (#[trigger] self.champions@[a]).player_id
                    != (#[trigger] self.champions@[b]).player_id by {
                    let a2 = if a < i { a } else { a + 1 };
                    let b2 = if b < i { b } else { b + 1 };
                    assert(before[a2] == self.champions@[a]);
                    assert(before[b2] == self.champions@[b]);
                }
            }
        } else {
            assert(!exists|k: int| first_with_id(before, *player_id, k));
            assert forall|k: int| 0 <= k < self.champions@.len() implies exists|j: int|
                0 <= j < before.len() && before[j] == #[trigger] self.champions@[k] by {
                assert(before[k] == self.champions@[k]);
            }
        }
        if self.state == MatchState::Active && self.players_count < self.max_players {
            self.state = MatchState::NotStarted;
        }
    }

    /// Queues a player's action for the next tick, replacing any earlier
    /// one; unknown codes become invalid actions.
    pub fn store_player_action(&mut self, player_id: PlayerId, action_value: u8)
        ensures
            queued_action(final(self).player_action@, player_id) == Some(spec_action(action_value)),
            forall|other: PlayerId|
                other != player_id ==> #[trigger] queued_action(final(self).player_action@, other)
                    == queued_action(old(self).player_action@, other),
            *final(self) == (GameManager { player_action: final(self).player_action, ..*old(self) }),
    {
        let action = action_from_code(action_value);
        remove_actions_of(&mut self.player_action, player_id);
        let ghost mid = self.player_action@;
        self.player_action.push((player_id, action));
        proof {
            lemma_queued_push(mid, (player_id, action));
        }
    }
}

pub proof fn lemma_queued_push(s: Seq<(PlayerId, Action)>, x: (PlayerId, Action))
    ensures
        forall|id: PlayerId|
            #[trigger] queued_action(s.push(x), id) == if queued_action(s, id).is_some() {
                queued_action(s, id)
            } else if x.0 == id {
                Some(x.1)
            } else {
                None
            },
    decreases s.len(),
{
    if s.len() > 0 {
        lemma_queued_push(s.drop_first(), x);
        assert(s.push(x).drop_first() =~= s.drop_first().push(x));
        assert(s.push(x)[0] == s[0]);
    } else {
        assert(s.push(x).drop_first() =~= Seq::<(PlayerId, Action)>::empty());
        assert(s.push(x)[0] == x);
    }
    assert forall|id: PlayerId|
        #[trigger] queued_action(s.push(x), id) == if queued_action(s, id).is_some() {
            queued_action(s, id)
        } else if x.0 == id {
            Some(x.1)
        } else {
            None
        } by {
        if s.len() > 0 {
            assert(s.push(x)[0] == s[0]);
            assert(s.push(x).drop_first() == s.drop_first().push(x));
            assert(queued_action(s.push(x).drop_first(), id) == queued_action(
                s.drop_first().push(x),
                id,
            ));
        } else {
            assert(s.push(x)[0] == x);
            assert(queued_action(s.push(x).drop_first(), id) == queued_action(
                Seq::<(PlayerId, Action)>::empty(),
                id,
            ));
        }
    }
}

/// Drops every queued action of `id`, keeping the others.
fn remove_actions_of(actions: &mut Vec<(PlayerId, Action)>, id: PlayerId)
    ensures
        queued_action(final(actions)@, id).is_none(),
        forall|other: PlayerId|
            other != id ==> #[trigger] queued_action(final(actions)@, other) == queued_action(
                old(actions)@,
                other,
            ),
{
    let mut kept: Vec<(PlayerId, Action)> = Vec::new();
    let mut i: usize = 0;
    while i < actions.len()
        invariant
            0 <= i <= actions@.len(),
            actions@ == old(actions)@,
            queued_action(kept@, id).is_none(),
            forall|other: PlayerId|
                other != id ==> #[trigger] queued_action(kept@, other) == queued_action(
                    actions@.take(i as int),
                    other,
                ),
        decreases actions.len() - i,
    {
        let x = actions[i];
        proof {
            assert(actions@.take(i as int + 1) =~= actions@.take(i as int).push(x));
            lemma_queued_push(actions@.take(i as int), x);
            lemma_queued_push(kept@, x);
        }
        if x.0 != id {
            kept.push(x);
        }
        i = i + 1;
    }
    assert(actions@.take(actions@.len() as int) =~= actions@);
    *actions = kept;
}

/// Two states of one champion: same player, team and level bounds.
pub open spec fn same_member(a: Champion, b: Champion) -> bool {
    &&& b.player_id == a.player_id
    &&& b.team == a.team
    &&& a.wf() ==> b.wf()
}

/// Two champion lists that hold the same players in the same order.
pub open spec fn same_roster(a: Seq<Champion>, b: Seq<Champion>) -> bool {
    &&& a.len() == b.len()
    &&& forall|k: int| 0 <= k < a.len() ==> same_member(a[k], #[trigger] b[k])
}

pub proof fn lemma_same_roster_trans(a: Seq<Champion>, b: Seq<Champion>, c: Seq<Champion>)
    requires
        same_roster(a, b),
        b.len() == c.len(),
        forall|k: int| 0 <= k < b.len() ==> same_member(b[k], #[trigger] c[k]),
    ensures
        same_roster(a, c),
{
    assert forall|k: int| 0 <= k < a.len() implies same_member(a[k], #[trigger] c[k]) by {
        assert(same_member(a[k], b[k]));
        assert(same_member(b[k], c[k]));
    }
}

/// Level and experience of champion `c` of the list `champs` after the
/// minion deaths, in order, starting from `lx`.
pub open spec fn deaths_xp(
    lx: (nat, nat),
    c: Champion,
    champs: Seq<Champion>,
    deaths: Seq<(u16, u16, Team)>,
) -> (nat, nat)
    decreases deaths.len(),
{
    if deaths.len() == 0 {
        lx
    } else {
        let p = deaths_xp(lx, c, champs, deaths.drop_last());
        let (r, cc, t) = deaths.last();
        if shares_minion_xp(c, r, cc, t) {
            gained(p.0 as u8, p.1 as u32, minion_xp_share(MINION_XP_REWARD, sharing_count(champs, r, cc, t)))
        } else {
            p
        }
    }
}

/// Two lists whose champions agree on team, health and position.
pub open spec fn same_standing(a: Seq<Champion>, b: Seq<Champion>) -> bool {
    &&& a.len() == b.len()
    &&& forall|k: int|
        0 <= k < a.len() ==> (#[trigger] a[k]).team == b[k].team && a[k].health == b[k].health
            && a[k].row == b[k].row && a[k].col == b[k].col
}

pub proof fn lemma_sharing_count_same(a: Seq<Champion>, b: Seq<Champion>, r: u16, c: u16, t: Team)
    requires
        same_standing(a, b),
    ensures
        sharing_count(a, r, c, t) == sharing_count(b, r, c, t),
    decreases a.len(),
{
    if a.len() > 0 {
        assert(same_standing(a.drop_last(), b.drop_last()));
        lemma_sharing_count_same(a.drop_last(), b.drop_last(), r, c, t);
        assert(a[a.len() - 1].team == b[b.len() - 1].team);
    }
}

pub proof fn lemma_deaths_xp_same(
    lx: (nat, nat),
    c: Champion,
    c2: Champion,
    a: Seq<Champion>,
    b: Seq<Champion>,
    deaths: Seq<(u16, u16, Team)>,
)
    requires
        same_standing(a, b),
        c.team == c2.team && c.health == c2.health && c.row == c2.row && c.col == c2.col,
    ensures
        deaths_xp(lx, c, a, deaths) == deaths_xp(lx, c2, b, deaths),
    decreases deaths.len(),
{
    if deaths.len() > 0 {
        lemma_deaths_xp_same(lx, c, c2, a, b, deaths.drop_last());
        let (r, cc, t) = deaths.last();
        lemma_sharing_count_same(a, b, r, cc, t);
    }
}

/// Shares the experience of every recorded minion death, in order.
fn distribute_all_minion_xp(champs: &mut Vec<Champion>, dead: &Vec<(u16, u16, Team)>)
    requires
        forall|k: int| 0 <= k < old(champs)@.len() ==> (#[trigger] old(champs)@[k]).wf(),
    ensures
        same_roster(old(champs)@, final(champs)@),
        same_standing(old(champs)@, final(champs)@),
        forall|k: int| 0 <= k < final(champs)@.len() ==> (#[trigger] final(champs)@[k]).wf(),
        forall|k: int|
            0 <= k < final(champs)@.len() ==> {
                let c = old(champs)@[k];
                let d = #[trigger] final(champs)@[k];
                &&& d == (Champion { level: d.level, xp: d.xp, ..c })
                &&& (d.level as nat, d.xp as nat) == deaths_xp(
                    (c.level as nat, c.xp as nat),
                    c,
                    old(champs)@,
                    dead@,
                )
            },
{
    let mut d: usize = 0;
    assert forall|k: int| 0 <= k < champs@.len() implies same_member(old(champs)@[k], #[trigger] champs@[k]) by {}
    while d < dead.len()
        invariant
            0 <= d <= dead@.len(),
            champs@.len() == old(champs)@.len(),
            forall|k: int| 0 <= k < champs@.len() ==> (#[trigger] champs@[k]).wf(),
            forall|k: int| 0 <= k < champs@.len() ==> same_member(old(champs)@[k], #[trigger] champs@[k]),
            same_standing(old(champs)@, champs@),
            forall|k: int|
                0 <= k < champs@.len() ==> {
                    let c = old(champs)@[k];
                    let x = #[trigger] champs@[k];
                    &&& x == (Champion { level: x.level, xp: x.xp, ..c })
                    &&& (x.level as nat, x.xp as nat) == deaths_xp(
                        (c.level as nat, c.xp as nat),
                        c,
                        old(champs)@,
                        dead@.take(d as int),
                    )
                },
        decreases dead@.len() - d,
    {
        let (r, c, t) = dead[d];
        let ghost before = champs@;
        proof {
            assert(dead@.take(d as int + 1).drop_last() =~= dead@.take(d as int));
            assert(dead@.take(d as int + 1).last() == (r, c, t));
            lemma_sharing_count_same(old(champs)@, before, r, c, t);
        }
        distribute_minion_xp(champs, r, c, t, MINION_XP_REWARD);
        proof {
            assert forall|k: int| 0 <= k < champs@.len() implies same_member(
                old(champs)@[k],
                #[trigger] champs@[k],
            ) && champs@[k].wf() && {
                let c0 = old(champs)@[k];
                let x = champs@[k];
                &&& x == (Champion { level: x.level, xp: x.xp, ..c0 })
                &&& (x.level as nat, x.xp as nat) == deaths_xp(
                    (c0.level as nat, c0.xp as nat),
                    c0,
                    old(champs)@,
                    dead@.take(d as int + 1),
                )
            } by {
                assert(before[k] == before[k]);
                assert(same_member(old(champs)@[k], before[k]));
            }
            assert forall|k: int| 0 <= k < champs@.len() implies (#[trigger] old(champs)@[k]).team == champs@[k].team
                && old(champs)@[k].health == champs@[k].health && old(champs)@[k].row == champs@[k].row
                && old(champs)@[k].col == champs@[k].col by {
                assert(before[k] == before[k]);
            }
        }
        d = d + 1;
    }
    assert(dead@.take(dead@.len() as int) =~= dead@);
}

impl GameManager {
    /// The entities that animations may follow, with their positions.
    pub open spec fn owners(&self) -> Seq<(usize, u16, u16)> {
        owners_of(
            self.champions@,
            self.towers@,
            self.minion_manager.minions@,
            self.monster_manager.active_monsters@,
        )
    }

    /// The animations of the previous tick that go on: those whose owner
    /// still exists and that have frames left, one frame further.
    pub open spec fn carried_animations(&self, previous: Seq<Animation>) -> Seq<Animation> {
        kept_animations(previous, self.owners())
    }

    /// One tick of the match at time `now_ms` on the caller's clock. Outside
    /// an active match nothing changes. Otherwise the pipeline runs in
    /// order: buffs, players, minions, monsters, towers, projectiles, the
    /// effect pass, experience, animations; then a fallen base ends the match
    /// (the red base is looked at first), or every champion's view is built.
    #[verifier::rlimit(100)]
    #[verifier::spinoff_prover]
    pub fn game_tick(&mut self, now_ms: u64) -> (out: TickOutcome)
        requires
            old(self).wf(),
        ensures
            final(self).wf(),
            !(old(self).state is Active) ==> out is Idle && *final(self) == *old(self),
            old(self).state is Active ==> {
                &&& final(self).animations@.len() >= final(self).carried_animations(old(self).animations@).len()
                &&& final(self).animations@.subrange(
                    0,
                    final(self).carried_animations(old(self).animations@).len() as int,
                ) == final(self).carried_animations(old(self).animations@)
                &&& final(self).champions@.len() == old(self).champions@.len()
                &&& forall|k: int|
                    0 <= k < old(self).champions@.len() ==> (#[trigger] final(self).champions@[k]).player_id == old(self).champions@[k].player_id
                        && final(self).champions@[k].team == old(self).champions@[k].team
                &&& forall|k: int|
                    0 <= k < old(self).champions@.len() && (#[trigger] old(self).champions@[k]).health == 0
                        ==> (final(self).champions@[k].row, final(self).champions@[k].col) == spawn_of(
                        old(self).layout,
                        old(self).champions@[k].team,
                    )
                &&& forall|k: int|
                    0 <= k < old(self).champions@.len() && (#[trigger] old(self).champions@[k]).health == 0
                        ==> final(self).champions@[k].health == health_after(
                        old(self).champions@[k].max_health,
                        effects_for(
                            final(self).last_effects@,
                            Target::Champion(old(self).champions@[k].player_id),
                        ),
                    )
                &&& forall|k: int|
                    0 <= k < old(self).champions@.len() ==> {
                        let c = #[trigger] old(self).champions@[k];
                        let d = final(self).champions@[k];
                        (d.level as nat, d.xp as nat) == deaths_xp(
                            rewarded(c.level as nat, c.xp as nat, final(self).last_rewards@, c.player_id),
                            d,
                            final(self).champions@,
                            final(self).dead_minion_positions@,
                        )
                    }
                &&& forall|k: int|
                    0 <= k < old(self).champions@.len() ==> {
                        let kept = kept_buffs((#[trigger] old(self).champions@[k]).buffs@);
                        &&& kept.len() <= final(self).champions@[k].buffs@.len()
                        &&& final(self).champions@[k].buffs@.subrange(0, kept.len() as int) == kept
                    }
                &&& forall|k: int|
                    0 <= k < old(self).towers@.len() ==> tower_accounted(
                        final(self).towers@,
                        final(self).board,
                        #[trigger] old(self).towers@[k],
                    )
                &&& final(self).red_base.health <= old(self).red_base.health
                &&& final(self).blue_base.health <= old(self).blue_base.health
                &&& match out {
                    TickOutcome::MatchEnd(w) => final(self).state == MatchState::Ended(w) && winner(
                        old(self).red_base.health,
                        old(self).blue_base.health,
                        final(self).red_base.health,
                        final(self).blue_base.health,
                    ) == Some(w),
                    TickOutcome::Updates(v) => {
                        &&& winner(
                            old(self).red_base.health,
                            old(self).blue_base.health,
                            final(self).red_base.health,
                            final(self).blue_base.health,
                        ).is_none()
                        &&& final(self).state == MatchState::Active
                        &&& final(self).red_base.health > 0
                        &&& final(self).blue_base.health > 0
                        &&& v@.len() == final(self).champions@.len()
                        &&& forall|k: int|
                            0 <= k < v@.len() ==> {
                                let u = #[trigger] v@[k];
                                let c = final(self).champions@[k];
                                &&& u.health == c.health
                                &&& u.max_health == c.max_health
                                &&& u.mana == c.mana
                                &&& u.max_mana == c.max_mana
                                &&& u.level == c.level
                                &&& u.xp == c.xp
                                &&& u.xp_needed == if c.level < MAX_LEVEL {
                                    xp_needed(c.level as nat) as u32
                                } else {
                                    0
                                }
                            }
                        &&& forall|k: int|
                            0 <= k < v@.len() ==> (#[trigger] v@[k]).player_id == final(self).champions@[k].player_id && v@[k].board@ == final(self).board.encoding()
                                && run_total(v@[k].board@) == final(self).board.rows * final(self).board.cols
                    },
                    TickOutcome::Idle => false,
                }
            },
    {
        if self.state != MatchState::Active {
            return TickOutcome::Idle;
        }
        let red_before = self.red_base.health;
        let blue_before = self.blue_base.health;
        self.dead_minion_positions.clear();
        if let Some(start) = self.game_start_time {
            if !self.initial_monsters_spawned && now_ms >= start && now_ms - start
                >= self.config.monster_spawn_delay_ms {
                self.monster_manager.spawn_initial_monsters(&mut self.board);
                self.initial_monsters_spawned = true;
            }
        }
        self.tick = if self.tick < u64::MAX { self.tick + 1 } else { self.tick };
        let mut new_animations: Vec<Animation> = Vec::new();
        let mut pending: Vec<PendingEffect> = Vec::new();
        let mut rewards: Vec<(PlayerId, u8)> = Vec::new();
        let mut clears: Vec<AnimationCommand> = Vec::new();
        let mut draws: Vec<AnimationCommand> = Vec::new();
        let mut flight: Vec<AnimationCommand> = Vec::new();

        let ghost c0 = self.champions@;
        decay_champion_buffs(&mut self.champions);
        proof {
            assert forall|k: int| 0 <= k < c0.len() implies same_member(c0[k], #[trigger] self.champions@[k]) by {
                assert(c0[k] == c0[k]);
            }
        }
        let ghost c1 = self.champions@;
        decay_minion_buffs(&mut self.minion_manager.minions);
        player_turn(
            &mut self.champions,
            &self.player_action,
            &mut self.board,
            &mut self.projectile_manager,
            &mut new_animations,
            &mut pending,
            self.layout.blue_spawn,
            self.layout.red_spawn,
        );
        proof {
            assert forall|k: int| 0 <= k < c1.len() implies same_member(c1[k], #[trigger] self.champions@[k]) by {
                assert(c1[k] == c1[k]);
            }
            lemma_same_roster_trans(c0, c1, self.champions@);
        }
        let ghost c2 = self.champions@;
        self.minion_manager.manage_minions_mouvements(&mut self.board);
        self.minion_manager.make_wave(&mut self.board, now_ms);
        self.minion_manager.manage_minions_attack(&self.board, &mut new_animations, &mut pending);
        self.monster_manager.update(&self.board, &self.champions, &mut new_animations, &mut pending);
        let ghost towers_pre = self.towers@;
        let ghost board_pre = self.board;
        assert(towers_pre == old(self).towers@);
        tower_turn(&mut self.towers, &self.board, &mut self.projectile_manager);
        let targets = collect_targets(
            &self.champions,
            &self.towers,
            &self.minion_manager.minions,
            &self.monster_manager,
        );
        self.projectile_manager.update_and_check_collisions(&targets, &mut pending, &mut flight);
        let ghost towers_mid = self.towers@;
        proof {
            assert forall|k: int| 0 <= k < self.towers@.len() implies self.board.in_bounds(
                (#[trigger] self.towers@[k]).row as int,
                self.towers@[k].col as int,
            ) by {
                assert(towers_pre[k] == towers_pre[k]);
                assert(board_pre.in_bounds(towers_pre[k].row as int, towers_pre[k].col as int));
            }
        }
        apply_pending(
            &pending,
            &mut self.champions,
            &mut self.towers,
            &mut self.minion_manager.minions,
            &mut self.dead_minion_positions,
            &mut self.monster_manager,
            &mut self.red_base,
            &mut self.blue_base,
            &mut self.board,
            &mut rewards,
        );
        proof {
            assert forall|k: int| 0 <= k < c2.len() implies same_member(c2[k], #[trigger] self.champions@[k]) by {
                assert(c2[k] == c2[k]);
            }
            lemma_same_roster_trans(c0, c2, self.champions@);
        }
        let ghost c3 = self.champions@;
        credit_rewards(&mut self.champions, &rewards);
        proof {
            assert forall|k: int| 0 <= k < c3.len() implies same_member(c3[k], #[trigger] self.champions@[k]) by {
                assert(c3[k] == c3[k]);
            }
            lemma_same_roster_trans(c0, c3, self.champions@);
        }
        let ghost c5 = self.champions@;
        distribute_all_minion_xp(&mut self.champions, &self.dead_minion_positions);
        proof { lemma_same_roster_trans(c0, c5, self.champions@); }
        let ghost board_after_effects = self.board;
        let ghost effects_done = pending@;
        let ghost rewards_done = rewards@;
        self.last_effects = pending;
        self.last_rewards = rewards;
        proof {
            assert forall|k: int| 0 <= k < c0.len() implies {
                let c = #[trigger] c0[k];
                &&& first_with_id(c2, c.player_id, k)
                &&& first_with_id(c3, c.player_id, k)
            } by {
                assert(same_member(c0[k], c2[k]));
                assert forall|j: int| 0 <= j < k implies (#[trigger] c2[j]).player_id != c0[k].player_id by {
                    assert(same_member(c0[j], c2[j]));
                    assert(c0[j].player_id != c0[k].player_id);
                }
                assert forall|j: int| 0 <= j < k implies (#[trigger] c3[j]).player_id != c0[k].player_id by {
                    assert(same_member(c0[j], c3[j]));
                    assert(c0[j].player_id != c0[k].player_id);
                }
            }
            assert forall|k: int|
                0 <= k < c0.len() && (#[trigger] c0[k]).health == 0 implies self.champions@[k].health
                == health_after(
                c0[k].max_health,
                effects_for(effects_done, Target::Champion(c0[k].player_id)),
            ) by {
                assert(c1[k] == c1[k]);
                assert(c2[k] == c2[k]);
                assert(c3[k] == c3[k]);
                assert(c5[k] == c5[k]);
                assert(first_with_id(c2, c0[k].player_id, k));
            }
            assert forall|k: int| 0 <= k < c0.len() implies {
                let c = #[trigger] c0[k];
                let d = self.champions@[k];
                (d.level as nat, d.xp as nat) == deaths_xp(
                    rewarded(c.level as nat, c.xp as nat, rewards_done, c.player_id),
                    d,
                    self.champions@,
                    self.dead_minion_positions@,
                )
            } by {
                assert(c1[k] == c1[k]);
                assert(c2[k] == c2[k]);
                assert(c3[k] == c3[k]);
                assert(c5[k] == c5[k]);
                assert(first_with_id(c3, c0[k].player_id, k));
                let d = self.champions@[k];
                lemma_deaths_xp_same(
                    (c5[k].level as nat, c5[k].xp as nat),
                    c5[k],
                    d,
                    c5,
                    self.champions@,
                    self.dead_minion_positions@,
                );
            }
        }

        proof {
            assert forall|k: int| 0 <= k < c0.len() implies {
                let kept = kept_buffs((#[trigger] c0[k]).buffs@);
                &&& kept.len() <= self.champions@[k].buffs@.len()
                &&& self.champions@[k].buffs@.subrange(0, kept.len() as int) == kept
            } by {
                assert(c1[k].buffs@ == kept_buffs(c0[k].buffs@));
                assert(buffs_extend(c1[k], c2[k]));
                assert(buffs_extend(c2[k], c3[k]));
                assert(c5[k].buffs == c3[k].buffs);
                lemma_buffs_extend_trans(c1[k], c2[k], c3[k]);
                assert(self.champions@[k].buffs == c5[k].buffs);
            }
            assert forall|k: int|
                0 <= k < c0.len() && (#[trigger] c0[k]).health == 0 implies (
                self.champions@[k].row,
                self.champions@[k].col,
            ) == spawn_of(self.layout, c0[k].team) by {
                assert(c1[k].health == 0);
                assert(c2[k] == c2[k]);
                assert(c3[k] == c3[k]);
                assert(c5[k] == c5[k]);
            }
        }
        let owners = collect_owners(
            &self.champions,
            &self.towers,
            &self.minion_manager.minions,
            &self.monster_manager,
        );
        let mut kept = advance_animations(&self.animations, &owners, &mut clears, &mut draws);
        let ghost carried = kept@;
        kept.append(&mut new_animations);
        assert(kept@.subrange(0, carried.len() as int) =~= carried);
        self.animations = kept;
        let ghost bc0 = self.board;
        apply_commands(&mut self.board, &clears, false);
        let ghost bc1 = self.board;
        apply_commands(&mut self.board, &flight, false);
        let ghost bc2 = self.board;
        apply_commands(&mut self.board, &flight, true);
        let ghost bc3 = self.board;
        apply_commands(&mut self.board, &draws, true);
        proof {
            lemma_keeps_destroyed_trans(bc0, bc1, bc2);
            lemma_keeps_destroyed_trans(bc0, bc2, bc3);
            lemma_keeps_destroyed_trans(bc0, bc3, self.board);
            assert(bc0 == board_after_effects);
        }

        proof {
            assert forall|k: int| 0 <= k < old(self).towers@.len() implies tower_accounted(
                self.towers@,
                self.board,
                #[trigger] old(self).towers@[k],
            ) by {
                let t = old(self).towers@[k];
                let u = towers_mid[k];
                assert(tower_accounted(self.towers@, board_after_effects, u));
                if board_after_effects.destroyed_at(u.row as int, u.col as int) {
                    assert(self.board.destroyed_at(u.row as int, u.col as int));
                }
            }
        }
        let won = if red_before == 0 {
            Some(Team::Blue)
        } else if blue_before == 0 {
            Some(Team::Red)
        } else if self.red_base.health == 0 {
            Some(Team::Blue)
        } else if self.blue_base.health == 0 {
            Some(Team::Red)
        } else {
            None
        };
        if let Some(w) = won {
            self.state = MatchState::Ended(w);
            return TickOutcome::MatchEnd(w);
        }
        TickOutcome::Updates(build_updates(&self.champions, &self.board))
    }
}

} // verus!
