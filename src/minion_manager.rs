use vstd::prelude::*;

use crate::animation::Animation;
use crate::board::{Board, ScanFilter};
use crate::cell::{CellAnimation, CellContent, Team};
use crate::entities::{
    content_target, has_stun, is_stunned, spec_content_target, Target, GameplayEffect, Minion, MinionStats, PendingEffect,
};

verus! {

/// Frames of a melee hit animation.
pub const MELEE_FRAMES: u8 = 2;

/// Owns the minions, spawns them in waves and moves them along the lane.
pub struct MinionManager {
    pub minions: Vec<Minion>,
    pub stats: MinionStats,
    /// The lane path from the blue side to the red side; red minions walk it
    /// backwards.
    pub lane: Vec<(u16, u16)>,
    pub minions_per_wave: u32,
    pub wave_interval_ms: u64,
    /// When the next wave starts, in milliseconds since the match started.
    pub wave_creation_time: u64,
    /// Minions of each team already spawned in the current wave.
    pub minions_this_wave: u32,
    pub next_id: usize,
}

/// The `k`-th waypoint of a team's walk along the lane.
pub open spec fn waypoint(lane: Seq<(u16, u16)>, team: Team, k: int) -> (u16, u16) {
    match team {
        Team::Blue => lane[k],
        Team::Red => lane[lane.len() - 1 - k],
    }
}

/// One step toward a waypoint: rows first, then columns.
pub open spec fn lane_step(r: u16, c: u16, w: (u16, u16)) -> (u16, u16) {
    if r < w.0 {
        ((r + 1) as u16, c)
    } else if r > w.0 {
        ((r - 1) as u16, c)
    } else if c < w.1 {
        (r, (c + 1) as u16)
    } else if c > w.1 {
        (r, (c - 1) as u16)
    } else {
        (r, c)
    }
}

fn next_step(r: u16, c: u16, w: (u16, u16)) -> (s: (u16, u16))
    ensures
        s == lane_step(r, c, w),
{
    if r < w.0 {
        (r + 1, c)
    } else if r > w.0 {
        (r - 1, c)
    } else if c < w.1 {
        (r, c + 1)
    } else if c > w.1 {
        (r, c - 1)
    } else {
        (r, c)
    }
}

/// Where a team's minions enter the lane.
pub open spec fn spawn_point(lane: Seq<(u16, u16)>, team: Team) -> (u16, u16) {
    waypoint(lane, team, 0)
}

/// Whether an enemy stands next to the minion.
pub open spec fn minion_has_target(board: Board, m: Minion) -> bool {
    exists|r: int, c: int|
        #[trigger] board.candidate(ScanFilter::EnemyOf(m.team), m.row as int, m.col as int, 1, r, c)
}

/// What a minion strikes this turn: off cooldown and not stunned, the
/// occupant of the cell a scan for adjacent enemies reports.
pub open spec fn minion_strike(m: Minion, board: Board) -> Option<Target> {
    if m.cooldown_left != 0 || has_stun(m.buffs@) {
        None
    } else {
        match board.nearest(ScanFilter::EnemyOf(m.team), m.row as int, m.col as int, 1) {
            None => None,
            Some((r, c)) => match board.cell_at(r, c).content {
                Some(x) => spec_content_target(x),
                None => None,
            },
        }
    }
}

/// The strikes of a list of minions, in order: each striking minion's
/// damage and its target.
pub open spec fn strikes(minions: Seq<Minion>, board: Board) -> Seq<(u32, Target)>
    decreases minions.len(),
{
    if minions.len() == 0 {
        Seq::empty()
    } else {
        let prev = strikes(minions.drop_last(), board);
        match minion_strike(minions.last(), board) {
            Some(tg) => prev.push((minions.last().attack_damage, tg)),
            None => prev,
        }
    }
}

impl MinionManager {
    pub fn new(
        stats: MinionStats,
        lane: Vec<(u16, u16)>,
        minions_per_wave: u32,
        wave_interval_ms: u64,
    ) -> (m: MinionManager)
        ensures
            m.minions@.len() == 0,
            m.stats == stats,
            m.lane@ == lane@,
            m.minions_per_wave == minions_per_wave,
            m.wave_interval_ms == wave_interval_ms,
            m.wave_creation_time == 0,
            m.minions_this_wave == 0,
            m.next_id == 0,
    {
        MinionManager {
            minions: Vec::new(),
            stats,
            lane,
            minions_per_wave,
            wave_interval_ms,
            wave_creation_time: 0,
            minions_this_wave: 0,
            next_id: 0,
        }
    }

    fn lane_point(&self, team: Team, k: usize) -> (w: (u16, u16))
        requires
            k < self.lane@.len(),
        ensures
            w == waypoint(self.lane@, team, k as int),
    {
        match team {
            Team::Blue => self.lane[k],
            Team::Red => self.lane[self.lane.len() - 1 - k],
        }
    }

    /// Moves each minion one step toward its next waypoint when that cell is
    /// passable; a minion standing on its waypoint aims at the following one.
    pub fn manage_minions_mouvements(&mut self, board: &mut Board)
        requires
            old(board).wf(),
        ensures
            final(board).wf(),
            final(board).rows == old(board).rows,
            final(board).cols == old(board).cols,
            final(self).minions@.len() == old(self).minions@.len(),
            final(self).lane@ == old(self).lane@,
            forall|k: int|
                0 <= k < old(self).minions@.len() ==> {
                    let m = #[trigger] old(self).minions@[k];
                    let n = final(self).minions@[k];
                    &&& n == (Minion { row: n.row, col: n.col, path_index: n.path_index, ..m })
                    &&& n.path_index == m.path_index || n.path_index == m.path_index + 1
                    &&& (n.row, n.col) == (m.row, m.col) || (n.path_index < old(self).lane@.len()
                        && (n.row, n.col) == lane_step(
                        m.row,
                        m.col,
                        waypoint(old(self).lane@, m.team, n.path_index as int),
                    ))
                },
    {
        let n = self.minions.len();
        let mut i: usize = 0;
        while i < n
            invariant
                n == self.minions@.len(),
                n == old(self).minions@.len(),
                0 <= i <= n,
                board.wf(),
                board.rows == old(board).rows,
                board.cols == old(board).cols,
                self.lane@ == old(self).lane@,
                forall|k: int|
                    i <= k < n ==> #[trigger] self.minions@[k] == old(self).minions@[k],
                forall|k: int|
                    0 <= k < i ==> {
                        let m = #[trigger] old(self).minions@[k];
                        let n = self.minions@[k];
                        &&& n == (Minion { row: n.row, col: n.col, path_index: n.path_index, ..m })
                        &&& n.path_index == m.path_index || n.path_index == m.path_index + 1
                        &&& (n.row, n.col) == (m.row, m.col) || (n.path_index < old(self).lane@.len()
                            && (n.row, n.col) == lane_step(
                            m.row,
                            m.col,
                            waypoint(old(self).lane@, m.team, n.path_index as int),
                        ))
                    },
            decreases n - i,
        {
            let row = self.minions[i].row;
            let col = self.minions[i].col;
            let team = self.minions[i].team;
            let mut idx = self.minions[i].path_index;
            if idx < self.lane.len() && !is_stunned(&self.minions[i].buffs) {
                let w = self.lane_point(team, idx);
                if w.0 == row && w.1 == col && idx < usize::MAX {
                    idx = idx + 1;
                    self.minions[i].path_index = idx;
                }
                if idx < self.lane.len() {
                    let w = self.lane_point(team, idx);
                    let (sr, sc) = next_step(row, col, w);
                    if (sr != row || sc != col) && board.is_passable(sr as usize, sc as usize) {
                        let id = self.minions[i].id;
                        board.clear_cell(row as usize, col as usize);
                        board.place_cell(CellContent::Minion(id, team), sr as usize, sc as usize);
                        self.minions[i].row = sr;
                        self.minions[i].col = sc;
                    }
                }
            }
            i = i + 1;
        }
    }

    /// Spawns the current wave's next minion of each team at its spawn point
    /// once the wave timer has elapsed; the timer restarts when the wave is
    /// complete. Before the timer elapses nothing changes.
    pub fn make_wave(&mut self, board: &mut Board, now_ms: u64)
        requires
            old(board).wf(),
        ensures
            final(board).wf(),
            final(board).rows == old(board).rows,
            final(board).cols == old(board).cols,
            now_ms < old(self).wave_creation_time ==> *final(self) == *old(self) && *final(board)
                == *old(board),
            final(self).lane@ == old(self).lane@,
            final(self).minions@.len() <= old(self).minions@.len() + 2,
            final(self).minions@.len() >= old(self).minions@.len(),
            now_ms >= old(self).wave_creation_time && old(self).lane@.len() > 0 && old(self).next_id
                < usize::MAX && old(board).passable_at(
                spawn_point(old(self).lane@, Team::Blue).0 as int,
                spawn_point(old(self).lane@, Team::Blue).1 as int,
            ) ==> final(self).minions@.len() > old(self).minions@.len(),
            final(self).minions@.subrange(0, old(self).minions@.len() as int) == old(self).minions@,
            forall|k: int|
                old(self).minions@.len() <= k < final(self).minions@.len() ==> {
                    let m = #[trigger] final(self).minions@[k];
                    &&& (m.row, m.col) == spawn_point(old(self).lane@, m.team)
                    &&& m.health == old(self).stats.max_health
                    &&& m.path_index == 0
                    &&& m.id >= old(self).next_id
                },
    {
        if now_ms < self.wave_creation_time {
            return ;
        }
        let ghost old_minions = self.minions@;
        let ghost first_id = self.next_id;
        self.spawn_one(board, Team::Blue);
        let ghost mid = self.minions@;
        self.spawn_one(board, Team::Red);
        proof {
            assert(mid.subrange(0, old_minions.len() as int) == old_minions);
            assert(self.minions@.subrange(0, mid.len() as int) == mid);
            assert(self.minions@.subrange(0, old_minions.len() as int) =~= mid.subrange(
                0,
                old_minions.len() as int,
            ));
            assert forall|k: int| old_minions.len() <= k < self.minions@.len() implies {
                let m = #[trigger] self.minions@[k];
                &&& (m.row, m.col) == spawn_point(old(self).lane@, m.team)
                &&& m.health == old(self).stats.max_health
                &&& m.path_index == 0
                &&& m.id >= first_id
            } by {
                if k < mid.len() {
                    assert(self.minions@[k] == self.minions@.subrange(0, mid.len() as int)[k]);
                }
            }
        }
        if self.minions_this_wave < u32::MAX {
            self.minions_this_wave = self.minions_this_wave + 1;
        }
        if self.minions_this_wave >= self.minions_per_wave {
            self.minions_this_wave = 0;
            self.wave_creation_time = if now_ms > u64::MAX - self.wave_interval_ms {
                u64::MAX
            } else {
                now_ms + self.wave_interval_ms
            };
        }
    }

    fn spawn_one(&mut self, board: &mut Board, team: Team)
        requires
            old(board).wf(),
        ensures
            final(board).wf(),
            final(board).rows == old(board).rows,
            final(board).cols == old(board).cols,
            final(self).lane@ == old(self).lane@,
            final(self).stats == old(self).stats,
            final(self).minions_this_wave == old(self).minions_this_wave,
            final(self).minions_per_wave == old(self).minions_per_wave,
            final(self).wave_creation_time == old(self).wave_creation_time,
            final(self).wave_interval_ms == old(self).wave_interval_ms,
            final(self).next_id >= old(self).next_id,
            final(self).minions@.len() <= old(self).minions@.len() + 1,
            final(self).minions@.len() >= old(self).minions@.len(),
            final(self).minions@.subrange(0, old(self).minions@.len() as int) == old(self).minions@,
            old(self).lane@.len() > 0 && old(self).next_id < usize::MAX && old(board).passable_at(
                spawn_point(old(self).lane@, team).0 as int,
                spawn_point(old(self).lane@, team).1 as int,
            ) ==> final(self).minions@.len() == old(self).minions@.len() + 1,
            final(self).minions@.len() > old(self).minions@.len() ==> {
                let m = final(self).minions@.last();
                &&& m.team == team
                &&& (m.row, m.col) == spawn_point(old(self).lane@, team)
                &&& m.health == old(self).stats.max_health
                &&& m.path_index == 0
                &&& m.id == old(self).next_id
                &&& final(self).next_id == m.id + 1
            },
    {
        if self.lane.len() == 0 || self.next_id == usize::MAX {
            assert(self.minions@.subrange(0, self.minions@.len() as int) =~= self.minions@);
            return ;
        }
        let (r, c) = self.lane_point(team, 0);
        if !board.is_passable(r as usize, c as usize) {
            assert(self.minions@.subrange(0, self.minions@.len() as int) =~= self.minions@);
            return ;
        }
        let id = self.next_id;
        let m = Minion {
            id,
            team,
            row: r,
            col: c,
            health: self.stats.max_health,
            attack_damage: self.stats.attack_damage,
            attack_cooldown: self.stats.attack_cooldown,
            cooldown_left: 0,
            path_index: 0,
            buffs: Vec::new(),
        };
        let ghost before = self.minions@;
        self.minions.push(m);
        assert(self.minions@.subrange(0, before.len() as int) =~= before);
        board.place_cell(CellContent::Minion(id, team), r as usize, c as usize);
        self.next_id = id + 1;
    }

    /// Each minion off cooldown and not stunned strikes the nearest enemy
    /// next to it: the damage is queued and a hit animation recorded.
    pub fn manage_minions_attack(
        &mut self,
        board: &Board,
        animations: &mut Vec<Animation>,
        pending: &mut Vec<PendingEffect>,
    )
        requires
            board.wf(),
        ensures
            final(self).minions@.len() == old(self).minions@.len(),
            final(self).lane@ == old(self).lane@,
            forall|k: int|
                0 <= k < old(self).minions@.len() ==> {
                    let m = #[trigger] old(self).minions@[k];
                    let n = final(self).minions@[k];
                    &&& n == (Minion { cooldown_left: n.cooldown_left, ..m })
                    &&& m.cooldown_left > 0 ==> n.cooldown_left == m.cooldown_left - 1
                    &&& m.cooldown_left == 0 ==> n.cooldown_left == if !has_stun(m.buffs@)
                        && minion_has_target(*board, m) {
                        m.attack_cooldown
                    } else {
                        0
                    }
                },
            final(pending)@.len() == old(pending)@.len() + strikes(old(self).minions@, *board).len(),
            final(pending)@.subrange(0, old(pending)@.len() as int) == old(pending)@,
            forall|j: int|
                0 <= j < strikes(old(self).minions@, *board).len() ==> {
                    let e = #[trigger] final(pending)@[old(pending)@.len() + j];
                    let (d, tg) = strikes(old(self).minions@, *board)[j];
                    &&& e.attacker.is_none()
                    &&& e.target == tg
                    &&& e.effects@ == seq![GameplayEffect::Damage(d)]
                },
    {
        let n = self.minions.len();
        let ghost pending_before = pending@;
        let mut i: usize = 0;
        while i < n
            invariant
                n == self.minions@.len(),
                n == old(self).minions@.len(),
                0 <= i <= n,
                board.wf(),
                self.lane@ == old(self).lane@,
                forall|k: int|
                    0 <= k < n ==> {
                        let m = #[trigger] old(self).minions@[k];
                        let x = self.minions@[k];
                        x == (Minion { cooldown_left: x.cooldown_left, ..m })
                    },
                forall|k: int| i <= k < n ==> #[trigger] self.minions@[k] == old(self).minions@[k],
                forall|k: int|
                    0 <= k < i ==> {
                        let m = #[trigger] old(self).minions@[k];
                        let x = self.minions@[k];
                        &&& m.cooldown_left > 0 ==> x.cooldown_left == m.cooldown_left - 1
                        &&& m.cooldown_left == 0 ==> x.cooldown_left == if !has_stun(m.buffs@)
                            && minion_has_target(*board, m) {
                            m.attack_cooldown
                        } else {
                            0
                        }
                    },
                pending_before == old(pending)@,
                pending@.len() == pending_before.len() + strikes(old(self).minions@.take(i as int), *board).len(),
                pending@.subrange(0, pending_before.len() as int) == pending_before,
                forall|j: int|
                    0 <= j < strikes(old(self).minions@.take(i as int), *board).len() ==> {
                        let e = #[trigger] pending@[pending_before.len() + j];
                        let (d, tg) = strikes(old(self).minions@.take(i as int), *board)[j];
                        &&& e.attacker.is_none()
                        &&& e.target == tg
                        &&& e.effects@ == seq![GameplayEffect::Damage(d)]
                    },
            decreases n - i,
        {
            let ghost m = old(self).minions@[i as int];
            let ghost before_strikes = strikes(old(self).minions@.take(i as int), *board);
            proof {
                assert(old(self).minions@.take(i as int + 1).drop_last() =~= old(self).minions@.take(i as int));
                assert(self.minions@[i as int] == m);
            }
            if self.minions[i].cooldown_left > 0 {
                self.minions[i].cooldown_left = self.minions[i].cooldown_left - 1;
            } else if !is_stunned(&self.minions[i].buffs) {
                let row = self.minions[i].row as usize;
                let col = self.minions[i].col as usize;
                let team = self.minions[i].team;
                let found = board.scan_nearest(row, col, 1, ScanFilter::EnemyOf(team));
                proof {
                    if found.is_some() {
                        assert(board.is_nearest(
                            ScanFilter::EnemyOf(team),
                            row as int,
                            col as int,
                            1,
                            found.unwrap().0 as int,
                            found.unwrap().1 as int,
                        ));
                    }
                }
                if let Some((r, c)) = found {
                    if let Some(cell) = board.get_cell(r, c) {
                        if let Some(content) = cell.content {
                            if let Some(target) = content_target(content) {
                                let ghost before = pending@;
                                let effects = vec![GameplayEffect::Damage(self.minions[i].attack_damage)];
                                assert(effects@ =~= seq![GameplayEffect::Damage(m.attack_damage)]);
                                pending.push(PendingEffect { attacker: None, target, effects });
                                assert(pending@.subrange(0, pending_before.len() as int) =~= before.subrange(0, pending_before.len() as int));
                                proof {
                                    let st = strikes(old(self).minions@.take(i as int + 1), *board);
                                    assert(minion_strike(m, *board) == Some(target));
                                    assert(st == before_strikes.push((m.attack_damage, target)));
                                    assert forall|j: int| 0 <= j < st.len() implies {
                                        let e = #[trigger] pending@[pending_before.len() + j];
                                        let (d, tg) = st[j];
                                        &&& e.attacker.is_none()
                                        &&& e.target == tg
                                        &&& e.effects@ == seq![GameplayEffect::Damage(d)]
                                    } by {
                                        if j < before_strikes.len() {
                                            assert(pending@[pending_before.len() + j] == before[pending_before.len() + j]);
                                        }
                                    }
                                }
                                animations.push(
                                    Animation::new(
                                        CellAnimation::MeleeHit,
                                        self.minions[i].id,
                                        None,
                                        MELEE_FRAMES,
                                    ),
                                );
                                self.minions[i].cooldown_left = self.minions[i].attack_cooldown;
                            }
                        }
                    }
                }
            }
            i = i + 1;
        }
        assert(old(self).minions@.take(n as int) =~= old(self).minions@);
    }
}

} // verus!
