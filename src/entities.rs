use vstd::prelude::*;

use crate::cell::{CellContent, MinionId, MonsterId, PlayerId, Team, TowerId};

verus! {

/// Highest level a champion can reach.
pub const MAX_LEVEL: u8 = 18;

/// Experience a champion needs to pass from `level` to the next one.
pub open spec fn xp_needed(level: nat) -> nat {
    100 * level
}

/// Level and remaining experience after levelling up as long as the
/// experience held covers the next level.
pub open spec fn settle_xp(level: nat, xp: nat) -> (nat, nat)
    decreases xp,
{
    if 1 <= level < MAX_LEVEL && xp >= xp_needed(level) {
        settle_xp(level + 1, (xp - xp_needed(level)) as nat)
    } else {
        (level, xp)
    }
}

/// Health left after a hit; it never goes below zero.
pub open spec fn after_damage(health: u32, damage: u32) -> u32 {
    if damage >= health { 0 } else { (health - damage) as u32 }
}

pub fn apply_damage(health: u32, damage: u32) -> (r: u32)
    ensures
        r == after_damage(health, damage),
{
    if damage >= health { 0 } else { health - damage }
}

/// What a hit or a projectile does to its target.
#[derive(Debug, Clone, Copy, PartialEq, Eq, Structural)]
pub enum GameplayEffect {
    Damage(u32),
    /// Keeps the target from acting for this many ticks.
    Stun(u32),
}

/// The entity that an effect or a projectile is aimed at, by identifier.
#[derive(Debug, Clone, Copy, PartialEq, Eq, Structural)]
pub enum Target {
    Tower(TowerId),
    Minion(MinionId),
    Champion(PlayerId),
    Base(Team),
    Monster(MonsterId),
}

/// The entity that an occupant of a cell stands for; flags are no target.
pub open spec fn spec_content_target(c: CellContent) -> Option<Target> {
    match c {
        CellContent::Champion(id, _) => Some(Target::Champion(id)),
        CellContent::Minion(id, _) => Some(Target::Minion(id)),
        CellContent::Tower(id, _) => Some(Target::Tower(id)),
        CellContent::Base(t) => Some(Target::Base(t)),
        CellContent::Monster(id) => Some(Target::Monster(id)),
        CellContent::Flag(_, _) => None,
    }
}

pub fn content_target(c: CellContent) -> (r: Option<Target>)
    ensures
        r == spec_content_target(c),
{
    match c {
        CellContent::Champion(id, _) => Some(Target::Champion(id)),
        CellContent::Minion(id, _) => Some(Target::Minion(id)),
        CellContent::Tower(id, _) => Some(Target::Tower(id)),
        CellContent::Base(t) => Some(Target::Base(t)),
        CellContent::Monster(id) => Some(Target::Monster(id)),
        CellContent::Flag(_, _) => None,
    }
}

#[derive(Debug, Clone, Copy, PartialEq, Eq, Structural)]
pub enum BuffKind {
    Stun,
    /// Raises attack damage by this amount while it lasts.
    AttackBoost(u32),
}

/// A timed effect on a champion or a minion.
#[derive(Debug, Clone, Copy, PartialEq, Eq, Structural)]
pub struct Buff {
    pub kind: BuffKind,
    pub ticks_left: u32,
}

/// A buff after one tick: its remaining time, and whether it has run out.
pub open spec fn buff_after_tick(b: Buff) -> (Buff, bool) {
    let left = if b.ticks_left == 0 { 0u32 } else { (b.ticks_left - 1) as u32 };
    (Buff { ticks_left: left, ..b }, left == 0)
}

impl Buff {
    /// Advances the buff by one tick; returns whether it has expired.
    pub fn on_tick(&mut self) -> (expired: bool)
        ensures
            (*final(self), expired) == buff_after_tick(*old(self)),
    {
        if self.ticks_left > 0 {
            self.ticks_left = self.ticks_left - 1;
        }
        self.ticks_left == 0
    }
}

/// The attack bonus that the buffs of a list grant together.
pub open spec fn boost_total(buffs: Seq<Buff>) -> int
    decreases buffs.len(),
{
    if buffs.len() == 0 {
        0
    } else {
        boost_total(buffs.drop_last()) + match buffs.last().kind {
            BuffKind::AttackBoost(n) => n as int,
            BuffKind::Stun => 0,
        }
    }
}

pub open spec fn has_stun(buffs: Seq<Buff>) -> bool {
    exists|k: int| 0 <= k < buffs.len() && (#[trigger] buffs[k]).kind == BuffKind::Stun
}

pub fn is_stunned(buffs: &Vec<Buff>) -> (r: bool)
    ensures
        r == has_stun(buffs@),
{
    let mut i: usize = 0;
    while i < buffs.len()
        invariant
            0 <= i <= buffs@.len(),
            forall|k: int| 0 <= k < i ==> (#[trigger] buffs@[k]).kind != BuffKind::Stun,
        decreases buffs.len() - i,
    {
        if buffs[i].kind == BuffKind::Stun {
            return true;
        }
        i = i + 1;
    }
    false
}

/// The buffs that stay after one tick: every buff advanced one tick, in its
/// order, and those that ran out left behind.
pub open spec fn kept_buffs(buffs: Seq<Buff>) -> Seq<Buff>
    decreases buffs.len(),
{
    if buffs.len() == 0 {
        Seq::empty()
    } else {
        let prev = kept_buffs(buffs.drop_last());
        let (b, expired) = buff_after_tick(buffs.last());
        if expired { prev } else { prev.push(b) }
    }
}

/// The attack bonus that the buffs expiring this tick take back.
pub open spec fn expired_boost(buffs: Seq<Buff>) -> int
    decreases buffs.len(),
{
    if buffs.len() == 0 {
        0
    } else {
        let (b, expired) = buff_after_tick(buffs.last());
        expired_boost(buffs.drop_last()) + if expired {
            match b.kind {
                BuffKind::AttackBoost(n) => n as int,
                BuffKind::Stun => 0,
            }
        } else {
            0
        }
    }
}

/// Attack damage once the boosts that expire this tick are taken back,
/// never below zero.
pub open spec fn damage_after_decay(damage: u32, buffs: Seq<Buff>) -> int {
    if damage as int - expired_boost(buffs) >= 0 {
        damage as int - expired_boost(buffs)
    } else {
        0
    }
}

pub proof fn lemma_kept_buffs_not_expired(buffs: Seq<Buff>)
    ensures
        forall|k: int| 0 <= k < kept_buffs(buffs).len() ==> (#[trigger] kept_buffs(buffs)[k]).ticks_left > 0,
        kept_buffs(buffs).len() <= buffs.len(),
    decreases buffs.len(),
{
    if buffs.len() > 0 {
        lemma_kept_buffs_not_expired(buffs.drop_last());
    }
}

/// Advances every buff by one tick and drops those that expire, undoing an
/// expiring attack boost on `attack_damage`. Returns the kept buffs.
pub fn decay_buffs(buffs: Vec<Buff>, attack_damage: &mut u32) -> (kept: Vec<Buff>)
    ensures
        kept@ == kept_buffs(buffs@),
        *final(attack_damage) as int == damage_after_decay(*old(attack_damage), buffs@),
        forall|k: int| 0 <= k < kept@.len() ==> (#[trigger] kept@[k]).ticks_left > 0,
{
    let ghost start = *attack_damage as int;
    let mut kept: Vec<Buff> = Vec::new();
    let mut removed: u64 = 0;
    let mut i: usize = 0;
    while i < buffs.len()
        invariant
            0 <= i <= buffs@.len(),
            kept@ == kept_buffs(buffs@.take(i as int)),
            removed as int == if expired_boost(buffs@.take(i as int)) <= u64::MAX {
                expired_boost(buffs@.take(i as int))
            } else {
                u64::MAX as int
            },
            expired_boost(buffs@.take(i as int)) >= 0,
        decreases buffs.len() - i,
    {
        proof {
            let t = buffs@.take(i as int + 1);
            assert(t.drop_last() =~= buffs@.take(i as int));
            assert(t.last() == buffs@[i as int]);
        }
        let mut b = buffs[i];
        let expired = b.on_tick();
        if expired {
            match b.kind {
                BuffKind::AttackBoost(n) => {
                    removed = if removed > u64::MAX - n as u64 { u64::MAX } else { removed + n as u64 };
                },
                BuffKind::Stun => {},
            }
        } else {
            kept.push(b);
        }
        i = i + 1;
    }
    assert(buffs@.take(buffs@.len() as int) =~= buffs@);
    proof {
        lemma_kept_buffs_not_expired(buffs@);
    }
    if removed >= *attack_damage as u64 {
        *attack_damage = 0;
    } else {
        *attack_damage = *attack_damage - removed as u32;
    }
    kept
}

/// Health after a list of effects, applied in order.
pub open spec fn health_after(health: u32, effects: Seq<GameplayEffect>) -> u32
    decreases effects.len(),
{
    if effects.len() == 0 {
        health
    } else {
        let h = health_after(health, effects.drop_last());
        match effects.last() {
            GameplayEffect::Damage(d) => after_damage(h, d),
            GameplayEffect::Stun(_) => h,
        }
    }
}

/// The stun buffs that a list of effects lays on its target, in order.
pub open spec fn stuns_of(effects: Seq<GameplayEffect>) -> Seq<Buff>
    decreases effects.len(),
{
    if effects.len() == 0 {
        Seq::empty()
    } else {
        let prev = stuns_of(effects.drop_last());
        match effects.last() {
            GameplayEffect::Stun(t) => prev.push(Buff { kind: BuffKind::Stun, ticks_left: t }),
            GameplayEffect::Damage(_) => prev,
        }
    }
}

pub proof fn lemma_health_after_le(health: u32, effects: Seq<GameplayEffect>)
    ensures
        health_after(health, effects) <= health,
        health == 0 ==> health_after(health, effects) == 0,
    decreases effects.len(),
{
    if effects.len() > 0 {
        lemma_health_after_le(health, effects.drop_last());
    }
}

pub fn health_after_effects(health: u32, effects: &Vec<GameplayEffect>) -> (r: u32)
    ensures
        r == health_after(health, effects@),
        r <= health,
{
    let mut h = health;
    let mut i: usize = 0;
    while i < effects.len()
        invariant
            0 <= i <= effects@.len(),
            h == health_after(health, effects@.take(i as int)),
        decreases effects.len() - i,
    {
        proof {
            assert(effects@.take(i as int + 1).drop_last() =~= effects@.take(i as int));
        }
        match effects[i] {
            GameplayEffect::Damage(d) => {
                h = apply_damage(h, d);
            },
            GameplayEffect::Stun(_) => {},
        }
        i = i + 1;
    }
    assert(effects@.take(effects@.len() as int) =~= effects@);
    proof {
        lemma_health_after_le(health, effects@);
    }
    h
}

pub fn add_stuns(buffs: &mut Vec<Buff>, effects: &Vec<GameplayEffect>)
    ensures
        final(buffs)@ == old(buffs)@ + stuns_of(effects@),
{
    let ghost start = buffs@;
    let mut i: usize = 0;
    while i < effects.len()
        invariant
            0 <= i <= effects@.len(),
            buffs@ == start + stuns_of(effects@.take(i as int)),
        decreases effects.len() - i,
    {
        proof {
            assert(effects@.take(i as int + 1).drop_last() =~= effects@.take(i as int));
        }
        match effects[i] {
            GameplayEffect::Stun(t) => {
                buffs.push(Buff { kind: BuffKind::Stun, ticks_left: t });
                proof {
                    assert(buffs@ =~= start + stuns_of(effects@.take(i as int + 1)));
                }
            },
            GameplayEffect::Damage(_) => {},
        }
        i = i + 1;
    }
    assert(effects@.take(effects@.len() as int) =~= effects@);
}

/// An effect list waiting for the centralized application pass: who caused
/// it, what it is aimed at, and what it does.
pub struct PendingEffect {
    pub attacker: Option<PlayerId>,
    pub target: Target,
    pub effects: Vec<GameplayEffect>,
}

/// Stat table of champions.
#[derive(Debug, Clone, Copy, PartialEq, Eq, Structural)]
pub struct ChampionStats {
    pub max_health: u32,
    pub max_mana: u32,
    pub attack_damage: u32,
    pub attack_range: u16,
    pub attack_cooldown: u32,
}

/// An ability a champion can cast with its mana.
#[derive(Debug, Clone, Copy, PartialEq, Eq, Structural)]
pub enum SpellKind {
    /// A homing projectile at the nearest enemy in range.
    Bolt { damage: u32, speed: u16, range: u16 },
    /// Restores health, up to the maximum.
    Heal { amount: u32 },
    /// Raises attack damage for a number of ticks.
    Empower { bonus: u32, ticks: u32 },
}

#[derive(Debug, Clone, Copy, PartialEq, Eq, Structural)]
pub struct Spell {
    pub id: u8,
    pub kind: SpellKind,
    pub mana_cost: u32,
}

/// A player's input for one tick.
#[derive(Debug, Clone, Copy, PartialEq, Eq, Structural)]
pub enum Action {
    MoveUp,
    MoveDown,
    MoveLeft,
    MoveRight,
    Action1,
    Action2,
    InvalidAction,
}

/// The action an input code stands for; unknown codes are invalid actions.
pub open spec fn spec_action(code: u8) -> Action {
    if code == 1 {
        Action::MoveUp
    } else if code == 2 {
        Action::MoveDown
    } else if code == 3 {
        Action::MoveLeft
    } else if code == 4 {
        Action::MoveRight
    } else if code == 5 {
        Action::Action1
    } else if code == 6 {
        Action::Action2
    } else {
        Action::InvalidAction
    }
}

pub fn action_from_code(code: u8) -> (a: Action)
    ensures
        a == spec_action(code),
{
    match code {
        1 => Action::MoveUp,
        2 => Action::MoveDown,
        3 => Action::MoveLeft,
        4 => Action::MoveRight,
        5 => Action::Action1,
        6 => Action::Action2,
        _ => Action::InvalidAction,
    }
}

pub struct Champion {
    pub player_id: PlayerId,
    pub team: Team,
    pub row: u16,
    pub col: u16,
    pub health: u32,
    pub max_health: u32,
    pub mana: u32,
    pub max_mana: u32,
    pub level: u8,
    pub xp: u32,
    pub attack_damage: u32,
    pub attack_range: u16,
    pub attack_cooldown: u32,
    pub cooldown_left: u32,
    pub buffs: Vec<Buff>,
    pub spells: Vec<Spell>,
}

/// Level and experience after receiving `amount`, the total capped at the
/// largest `u32`.
pub open spec fn gained(level: u8, xp: u32, amount: u32) -> (nat, nat) {
    let total = if xp + amount > u32::MAX { u32::MAX as nat } else { (xp + amount) as nat };
    settle_xp(level as nat, total)
}

pub proof fn lemma_settle_bounds(level: nat, xp: nat)
    ensures
        settle_xp(level, xp).1 <= xp,
        level <= MAX_LEVEL ==> settle_xp(level, xp).0 <= MAX_LEVEL,
        settle_xp(level, xp).0 >= level,
    decreases xp,
{
    if 1 <= level < MAX_LEVEL && xp >= xp_needed(level) {
        lemma_settle_bounds(level + 1, (xp - xp_needed(level)) as nat);
    }
}

impl Champion {
    pub open spec fn wf(&self) -> bool {
        1 <= self.level <= MAX_LEVEL
    }

    pub fn new(
        player_id: PlayerId,
        team: Team,
        row: u16,
        col: u16,
        stats: ChampionStats,
        spells: Vec<Spell>,
    ) -> (c: Champion)
        ensures
            c.wf(),
            c.player_id == player_id,
            c.team == team,
            c.row == row,
            c.col == col,
            c.health == stats.max_health,
            c.max_health == stats.max_health,
            c.mana == stats.max_mana,
            c.max_mana == stats.max_mana,
            c.level == 1,
            c.xp == 0,
            c.attack_damage == stats.attack_damage,
            c.attack_range == stats.attack_range,
            c.attack_cooldown == stats.attack_cooldown,
            c.cooldown_left == 0,
            c.buffs@.len() == 0,
            c.spells@ == spells@,
    {
        Champion {
            player_id,
            team,
            row,
            col,
            health: stats.max_health,
            max_health: stats.max_health,
            mana: stats.max_mana,
            max_mana: stats.max_mana,
            level: 1,
            xp: 0,
            attack_damage: stats.attack_damage,
            attack_range: stats.attack_range,
            attack_cooldown: stats.attack_cooldown,
            cooldown_left: 0,
            buffs: Vec::new(),
            spells,
        }
    }

    pub fn is_dead(&self) -> (r: bool)
        ensures
            r == (self.health == 0),
    {
        self.health == 0
    }

    pub fn put_at_max_health(&mut self)
        ensures
            *final(self) == (Champion { health: old(self).max_health, ..*old(self) }),
    {
        self.health = self.max_health;
    }

    /// Health and maximum health.
    pub fn get_health(&self) -> (r: (u32, u32))
        ensures
            r == (self.health, self.max_health),
    {
        (self.health, self.max_health)
    }

    /// Experience the current level asks for; none at the top level.
    pub fn xp_for_next_level(&self) -> (r: Option<u32>)
        requires
            self.wf(),
        ensures
            self.level == MAX_LEVEL ==> r.is_none(),
            self.level < MAX_LEVEL ==> r == Some((xp_needed(self.level as nat)) as u32),
    {
        if self.level >= MAX_LEVEL {
            None
        } else {
            Some(100 * self.level as u32)
        }
    }

    /// Adds experience and levels up while it covers the next level.
    pub fn add_xp(&mut self, amount: u32)
        requires
            old(self).wf(),
        ensures
            final(self).wf(),
            (final(self).level as nat, final(self).xp as nat) == gained(old(self).level, old(self).xp, amount),
            *final(self) == (Champion { level: final(self).level, xp: final(self).xp, ..*old(self) }),
    {
        let total: u32 = if self.xp > u32::MAX - amount { u32::MAX } else { self.xp + amount };
        let mut level = self.level;
        let mut xp = total;
        proof {
            lemma_settle_bounds(level as nat, xp as nat);
        }
        while level < MAX_LEVEL && xp >= 100 * level as u32
            invariant
                1 <= level <= MAX_LEVEL,
                settle_xp(level as nat, xp as nat) == settle_xp(old(self).level as nat, total as nat),
            decreases xp,
        {
            xp = xp - 100 * level as u32;
            level = level + 1;
        }
        self.level = level;
        self.xp = xp;
    }

    /// Takes a list of effects: damage lowers health, stuns become buffs.
    pub fn take_effect(&mut self, effects: &Vec<GameplayEffect>)
        ensures
            final(self).health == health_after(old(self).health, effects@),
            final(self).buffs@ == old(self).buffs@ + stuns_of(effects@),
            *final(self) == (Champion { health: final(self).health, buffs: final(self).buffs, ..*old(self) }),
    {
        self.health = health_after_effects(self.health, effects);
        add_stuns(&mut self.buffs, effects);
    }

    /// Starts an auto-attack when the cooldown allows: returns its damage and
    /// restarts the cooldown.
    pub fn can_attack(&mut self) -> (r: Option<u32>)
        ensures
            old(self).cooldown_left == 0 ==> r == Some(old(self).attack_damage) && *final(self) == (
            Champion { cooldown_left: old(self).attack_cooldown, ..*old(self) }),
            old(self).cooldown_left != 0 ==> r.is_none() && *final(self) == *old(self),
    {
        if self.cooldown_left == 0 {
            self.cooldown_left = self.attack_cooldown;
            Some(self.attack_damage)
        } else {
            None
        }
    }
}

/// Stat table of minions.
#[derive(Debug, Clone, Copy, PartialEq, Eq, Structural)]
pub struct MinionStats {
    pub max_health: u32,
    pub attack_damage: u32,
    pub attack_cooldown: u32,
}

pub struct Minion {
    pub id: MinionId,
    pub team: Team,
    pub row: u16,
    pub col: u16,
    pub health: u32,
    pub attack_damage: u32,
    pub attack_cooldown: u32,
    pub cooldown_left: u32,
    /// Index of the next waypoint of the lane path.
    pub path_index: usize,
    pub buffs: Vec<Buff>,
}

impl Minion {
    pub fn is_dead(&self) -> (r: bool)
        ensures
            r == (self.health == 0),
    {
        self.health == 0
    }

    pub fn take_effect(&mut self, effects: &Vec<GameplayEffect>)
        ensures
            final(self).health == health_after(old(self).health, effects@),
            final(self).buffs@ == old(self).buffs@ + stuns_of(effects@),
            *final(self) == (Minion { health: final(self).health, buffs: final(self).buffs, ..*old(self) }),
    {
        self.health = health_after_effects(self.health, effects);
        add_stuns(&mut self.buffs, effects);
    }
}

/// Stat table of towers.
#[derive(Debug, Clone, Copy, PartialEq, Eq, Structural)]
pub struct TowerStats {
    pub max_health: u32,
    pub attack_damage: u32,
    pub attack_range: u16,
    pub attack_cooldown: u32,
    pub projectile_speed: u16,
}

#[derive(Debug, Clone, Copy, PartialEq, Eq, Structural)]
pub struct Tower {
    pub tower_id: TowerId,
    pub team: Team,
    pub row: u16,
    pub col: u16,
    pub health: u32,
    pub attack_damage: u32,
    pub attack_range: u16,
    pub attack_cooldown: u32,
    pub cooldown_left: u32,
    pub projectile_speed: u16,
}

impl Tower {
    pub fn new(tower_id: TowerId, team: Team, row: u16, col: u16, stats: TowerStats) -> (t: Tower)
        ensures
            t == (Tower {
                tower_id,
                team,
                row,
                col,
                health: stats.max_health,
                attack_damage: stats.attack_damage,
                attack_range: stats.attack_range,
                attack_cooldown: stats.attack_cooldown,
                cooldown_left: 0,
                projectile_speed: stats.projectile_speed,
            }),
    {
        Tower {
            tower_id,
            team,
            row,
            col,
            health: stats.max_health,
            attack_damage: stats.attack_damage,
            attack_range: stats.attack_range,
            attack_cooldown: stats.attack_cooldown,
            cooldown_left: 0,
            projectile_speed: stats.projectile_speed,
        }
    }

    pub fn is_destroyed(&self) -> (r: bool)
        ensures
            r == (self.health == 0),
    {
        self.health == 0
    }
}

#[derive(Debug, Clone, Copy, PartialEq, Eq, Structural)]
pub struct Base {
    pub team: Team,
    pub row: u16,
    pub col: u16,
    pub health: u32,
}

/// Stat table of neutral monsters.
#[derive(Debug, Clone, Copy, PartialEq, Eq, Structural)]
pub struct MonsterStats {
    pub max_health: u32,
    pub attack_damage: u32,
    pub attack_cooldown: u32,
    pub aggro_range: u16,
    pub xp_reward: u8,
}

#[derive(Debug, Clone, Copy, PartialEq, Eq, Structural)]
pub struct Monster {
    pub id: MonsterId,
    pub row: u16,
    pub col: u16,
    pub health: u32,
    pub attack_damage: u32,
    pub attack_cooldown: u32,
    pub cooldown_left: u32,
    pub aggro_range: u16,
    pub xp_reward: u8,
    /// The champion the monster is after, looked up again every tick.
    pub aggro: Option<PlayerId>,
}

} // verus!
