use vstd::prelude::*;

use crate::animation::Animation;
use crate::board::{dist, keeps_destroyed, lemma_index_distinct, lemma_index_in_bounds, lemma_with_cell_keeps_destroyed, Board, ScanFilter};
use crate::cell::Cell;
use crate::cell::{CellAnimation, CellContent, MonsterId, PlayerId};
use crate::entities::{
    health_after, health_after_effects, Champion, GameplayEffect, Monster, MonsterStats,
    PendingEffect, Target,
};
use crate::minion_manager::MELEE_FRAMES;

verus! {

/// Owns the neutral monsters of the match.
pub struct MonsterManager {
    pub active_monsters: Vec<Monster>,
    pub camps: Vec<(u16, u16)>,
    pub stats: MonsterStats,
    pub next_id: usize,
}

/// A monster may keep chasing a champion that is alive and within its
/// aggro range.
pub open spec fn valid_aggro(m: Monster, champs: Seq<Champion>) -> bool {
    match m.aggro {
        None => true,
        Some(id) => exists|k: int|
            0 <= k < champs.len() && (#[trigger] champs[k]).player_id == id && champs[k].health
                > 0 && dist(m.row as int, m.col as int, champs[k].row as int, champs[k].col as int)
                <= m.aggro_range,
    }
}

/// Finds the living champion `id` within `range` of `(row, col)`.
fn live_champion_near(champs: &Vec<Champion>, id: PlayerId, row: u16, col: u16, range: u16) -> (r:
    Option<usize>)
    ensures
        r.is_some() ==> {
            let k = r.unwrap() as int;
            &&& 0 <= k < champs@.len()
            &&& champs@[k].player_id == id
            &&& champs@[k].health > 0
            &&& dist(row as int, col as int, champs@[k].row as int, champs@[k].col as int) <= range
        },
        r.is_none() ==> forall|k: int|
            0 <= k < champs@.len() && (#[trigger] champs@[k]).player_id == id ==> !(champs@[k].health
                > 0 && dist(row as int, col as int, champs@[k].row as int, champs@[k].col as int)
                <= range),
{
    let mut i: usize = 0;
    while i < champs.len()
        invariant
            0 <= i <= champs@.len(),
            forall|k: int|
                0 <= k < i && (#[trigger] champs@[k]).player_id == id ==> !(champs@[k].health > 0
                    && dist(row as int, col as int, champs@[k].row as int, champs@[k].col as int)
                    <= range),
        decreases champs.len() - i,
    {
        let c = &champs[i];
        let dr: u16 = if c.row >= row { c.row - row } else { row - c.row };
        let dc: u16 = if c.col >= col { c.col - col } else { col - c.col };
        if c.player_id == id && c.health > 0 && dr <= range && dc <= range {
            return Some(i);
        }
        i = i + 1;
    }
    None
}

/// Every camp lies on a passable cell and no two camps share one.
pub open spec fn camps_free(camps: Seq<(u16, u16)>, board: Board) -> bool {
    &&& forall|k: int| 0 <= k < camps.len() ==> board.passable_at((#[trigger] camps[k]).0 as int, camps[k].1 as int)
    &&& forall|j: int, k: int| 0 <= j < k < camps.len() ==> (#[trigger] camps[j]) != (#[trigger] camps[k])
}

impl MonsterManager {
    pub fn new(stats: MonsterStats, camps: Vec<(u16, u16)>) -> (m: MonsterManager)
        ensures
            m.active_monsters@.len() == 0,
            m.camps@ == camps@,
            m.stats == stats,
            m.next_id == 0,
    {
        MonsterManager { active_monsters: Vec::new(), camps, stats, next_id: 0 }
    }

    /// Places one monster on each free camp.
    pub fn spawn_initial_monsters(&mut self, board: &mut Board)
        requires
            old(board).wf(),
        ensures
            final(board).wf(),
            final(board).rows == old(board).rows,
            final(board).cols == old(board).cols,
            final(self).camps@ == old(self).camps@,
            final(self).active_monsters@.len() >= old(self).active_monsters@.len(),
            final(self).active_monsters@.len() <= old(self).active_monsters@.len()
                + old(self).camps@.len(),
            forall|k: int|
                old(self).active_monsters@.len() <= k < final(self).active_monsters@.len() ==> {
                    let m = #[trigger] final(self).active_monsters@[k];
                    &&& m.health == old(self).stats.max_health
                    &&& m.aggro.is_none()
                    &&& old(self).camps@.contains((m.row, m.col))
                },
            final(self).active_monsters@.subrange(0, old(self).active_monsters@.len() as int)
                == old(self).active_monsters@,
            camps_free(old(self).camps@, *old(board)) && old(self).next_id + old(self).camps@.len()
                < usize::MAX ==> {
                &&& final(self).active_monsters@.len() == old(self).active_monsters@.len()
                    + old(self).camps@.len()
                &&& forall|k: int|
                    0 <= k < old(self).camps@.len() ==> {
                        let m = #[trigger] final(self).active_monsters@[old(self).active_monsters@.len() + k];
                        &&& (m.row, m.col) == old(self).camps@[k]
                        &&& m.id == old(self).next_id + k
                    }
            },
    {
        let ghost m0 = self.active_monsters@;
        let ghost all_free = camps_free(old(self).camps@, *old(board)) && old(self).next_id
            + old(self).camps@.len() < usize::MAX;
        let mut i: usize = 0;
        while i < self.camps.len()
            invariant
                0 <= i <= self.camps@.len(),
                self.camps@ == old(self).camps@,
                self.stats == old(self).stats,
                board.wf(),
                board.rows == old(board).rows,
                board.cols == old(board).cols,
                m0 == old(self).active_monsters@,
                self.active_monsters@.len() >= m0.len(),
                self.active_monsters@.len() <= m0.len() + i,
                self.active_monsters@.subrange(0, m0.len() as int) == m0,
                forall|k: int|
                    m0.len() <= k < self.active_monsters@.len() ==> {
                        let m = #[trigger] self.active_monsters@[k];
                        &&& m.health == old(self).stats.max_health
                        &&& m.aggro.is_none()
                        &&& old(self).camps@.contains((m.row, m.col))
                    },
                all_free == (camps_free(old(self).camps@, *old(board)) && old(self).next_id
                    + old(self).camps@.len() < usize::MAX),
                all_free ==> {
                    &&& self.active_monsters@.len() == m0.len() + i
                    &&& self.next_id == old(self).next_id + i
                    &&& forall|k: int|
                        0 <= k < i ==> {
                            let m = #[trigger] self.active_monsters@[m0.len() + k];
                            &&& (m.row, m.col) == old(self).camps@[k]
                            &&& m.id == old(self).next_id + k
                        }
                    &&& forall|k: int|
                        i <= k < self.camps@.len() ==> board.cell_at(
                            (#[trigger] self.camps@[k]).0 as int,
                            self.camps@[k].1 as int,
                        ) == old(board).cell_at(self.camps@[k].0 as int, self.camps@[k].1 as int)
                },
            decreases self.camps@.len() - i,
        {
            let (r, c) = self.camps[i];
            if self.next_id < usize::MAX && board.is_passable(r as usize, c as usize) {
                let id = self.next_id;
                let ghost before = self.active_monsters@;
                self.active_monsters.push(
                    Monster {
                        id,
                        row: r,
                        col: c,
                        health: self.stats.max_health,
                        attack_damage: self.stats.attack_damage,
                        attack_cooldown: self.stats.attack_cooldown,
                        cooldown_left: 0,
                        aggro_range: self.stats.aggro_range,
                        xp_reward: self.stats.xp_reward,
                        aggro: None,
                    },
                );
                proof {
                    assert(self.active_monsters@.subrange(0, m0.len() as int) =~= before.subrange(
                        0,
                        m0.len() as int,
                    ));
                    assert(self.camps@[i as int] == (r, c));
                }
                let ghost board_before = *board;
                assert(board_before.passable_at(r as int, c as int));
                board.place_cell(CellContent::Monster(id), r as usize, c as usize);
                self.next_id = id + 1;
                proof {
                    if all_free {
                        lemma_index_in_bounds(r as int, c as int, board.rows as int, board.cols as int);
                        assert forall|k: int| i < k < self.camps@.len() implies board.cell_at(
                            (#[trigger] self.camps@[k]).0 as int,
                            self.camps@[k].1 as int,
                        ) == old(board).cell_at(self.camps@[k].0 as int, self.camps@[k].1 as int) by {
                            let p = self.camps@[k];
                            assert(board_before.cell_at(p.0 as int, p.1 as int) == old(board).cell_at(
                                p.0 as int,
                                p.1 as int,
                            ));
                            assert(old(self).camps@[i as int] != old(self).camps@[k]);
                            assert(p != (r, c));
                            assert(old(board).passable_at(old(self).camps@[k].0 as int, old(self).camps@[k].1 as int));
                            lemma_index_distinct(p.0 as int, p.1 as int, r as int, c as int, board.cols as int);
                            lemma_index_in_bounds(p.0 as int, p.1 as int, board.rows as int, board.cols as int);
                            assert(board_before.in_bounds(r as int, c as int));
                            assert(board.cell_at(p.0 as int, p.1 as int) == board_before.cell_at(
                                p.0 as int,
                                p.1 as int,
                            ));
                        }
                        assert forall|k: int| 0 <= k < i + 1 implies {
                            let m = #[trigger] self.active_monsters@[m0.len() + k];
                            &&& (m.row, m.col) == old(self).camps@[k]
                            &&& m.id == old(self).next_id + k
                        } by {
                            if k < i {
                                assert(self.active_monsters@[m0.len() + k] == before[m0.len() + k]);
                            }
                        }
                    }
                }
            } else {
                proof {
                    if all_free {
                        assert(self.camps@[i as int] == (r, c));
                        assert(old(board).passable_at(old(self).camps@[i as int].0 as int, old(self).camps@[i as int].1 as int));
                        assert(board.cell_at(r as int, c as int) == old(board).cell_at(r as int, c as int));
                        assert(false);
                    }
                }
            }
            i = i + 1;
        }
    }

    /// One step of monster behaviour: each monster keeps its target while
    /// that champion is alive and in aggro range, otherwise takes the nearest
    /// champion in range; off cooldown, it strikes a target next to it.
    pub fn update(
        &mut self,
        board: &Board,
        champions: &Vec<Champion>,
        animations: &mut Vec<Animation>,
        pending: &mut Vec<PendingEffect>,
    )
        requires
            board.wf(),
        ensures
            final(self).active_monsters@.len() == old(self).active_monsters@.len(),
            final(self).camps@ == old(self).camps@,
            forall|k: int|
                0 <= k < old(self).active_monsters@.len() ==> {
                    let m = #[trigger] old(self).active_monsters@[k];
                    let n = final(self).active_monsters@[k];
                    &&& n == (Monster { aggro: n.aggro, cooldown_left: n.cooldown_left, ..m })
                    &&& n.aggro.is_some() ==> valid_aggro(n, champions@)
                    &&& m.aggro.is_some() && valid_aggro(m, champions@) ==> n.aggro == m.aggro
                },
            final(pending)@.len() >= old(pending)@.len(),
            final(pending)@.subrange(0, old(pending)@.len() as int) == old(pending)@,
            forall|k: int|
                old(pending)@.len() <= k < final(pending)@.len() ==> (
                #[trigger] final(pending)@[k]).attacker.is_none() && final(pending)@[k].target is Champion,
    {
        let n = self.active_monsters.len();
        let ghost pending_before = pending@;
        let mut i: usize = 0;
        while i < n
            invariant
                n == self.active_monsters@.len(),
                n == old(self).active_monsters@.len(),
                0 <= i <= n,
                board.wf(),
                self.camps@ == old(self).camps@,
                forall|k: int|
                    0 <= k < n ==> {
                        let m = #[trigger] old(self).active_monsters@[k];
                        let x = self.active_monsters@[k];
                        x == (Monster { aggro: x.aggro, cooldown_left: x.cooldown_left, ..m })
                    },
                forall|k: int|
                    0 <= k < i ==> {
                        let x = #[trigger] self.active_monsters@[k];
                        let m = old(self).active_monsters@[k];
                        &&& x.aggro.is_some() ==> valid_aggro(x, champions@)
                        &&& m.aggro.is_some() && valid_aggro(m, champions@) ==> x.aggro == m.aggro
                    },
                forall|k: int| i <= k < n ==> #[trigger] self.active_monsters@[k] == old(self).active_monsters@[k],
                pending@.len() >= pending_before.len(),
                pending@.subrange(0, pending_before.len() as int) == pending_before,
                forall|k: int|
                    pending_before.len() <= k < pending@.len() ==> (#[trigger] pending@[k]).attacker.is_none()
                        && pending@[k].target is Champion,
            decreases n - i,
        {
            let m = self.active_monsters[i];
            let mut target: Option<usize> = None;
            if let Some(pid) = m.aggro {
                target = live_champion_near(champions, pid, m.row, m.col, m.aggro_range);
            }
            if target.is_none() {
                self.active_monsters[i].aggro = None;
                if let Some((r, c)) = board.scan_nearest(
                    m.row as usize,
                    m.col as usize,
                    m.aggro_range as usize,
                    ScanFilter::Champions,
                ) {
                    if let Some(cell) = board.get_cell(r, c) {
                        if let Some(CellContent::Champion(pid, _)) = cell.content {
                            target = live_champion_near(champions, pid, m.row, m.col, m.aggro_range);
                        }
                    }
                }
            }
            if let Some(k) = target {
                let pid = champions[k].player_id;
                self.active_monsters[i].aggro = Some(pid);
                if m.cooldown_left > 0 {
                    self.active_monsters[i].cooldown_left = m.cooldown_left - 1;
                } else {
                    let c = &champions[k];
                    let dr: u16 = if c.row >= m.row { c.row - m.row } else { m.row - c.row };
                    let dc: u16 = if c.col >= m.col { c.col - m.col } else { m.col - c.col };
                    if dr <= 1 && dc <= 1 {
                        let ghost before = pending@;
                        pending.push(
                            PendingEffect {
                                attacker: None,
                                target: Target::Champion(pid),
                                effects: vec![GameplayEffect::Damage(m.attack_damage)],
                            },
                        );
                        assert(pending@.subrange(0, pending_before.len() as int) =~= before.subrange(
                            0,
                            pending_before.len() as int,
                        ));
                        animations.push(Animation::new(CellAnimation::MeleeHit, m.id, None, MELEE_FRAMES));
                        self.active_monsters[i].cooldown_left = m.attack_cooldown;
                    }
                }
            } else if m.cooldown_left > 0 {
                self.active_monsters[i].cooldown_left = m.cooldown_left - 1;
            }
            i = i + 1;
        }
    }

    /// Index of the first monster with this identifier.
    pub fn find_monster(&self, id: MonsterId) -> (r: Option<usize>)
        ensures
            r.is_none() ==> forall|k: int|
                0 <= k < self.active_monsters@.len() ==> (#[trigger] self.active_monsters@[k]).id
                    != id,
            r.is_some() ==> r.unwrap() < self.active_monsters@.len()
                && self.active_monsters@[r.unwrap() as int].id == id && forall|k: int|
                0 <= k < r.unwrap() ==> (#[trigger] self.active_monsters@[k]).id != id,
    {
        let mut i: usize = 0;
        while i < self.active_monsters.len()
            invariant
                0 <= i <= self.active_monsters@.len(),
                forall|k: int| 0 <= k < i ==> (#[trigger] self.active_monsters@[k]).id != id,
            decreases self.active_monsters.len() - i,
        {
            if self.active_monsters[i].id == id {
                return Some(i);
            }
            i = i + 1;
        }
        None
    }

    /// Applies effects to monster `id`. A monster that dies leaves the board
    /// and the list, and its experience goes to the attacker.
    pub fn apply_effects_to_monster(
        &mut self,
        board: &mut Board,
        id: MonsterId,
        effects: &Vec<GameplayEffect>,
        attacker: PlayerId,
    ) -> (reward: Option<(PlayerId, u8)>)
        requires
            old(board).wf(),
        ensures
            final(board).wf(),
            final(board).rows == old(board).rows,
            final(board).cols == old(board).cols,
            keeps_destroyed(*old(board), *final(board)),
            final(self).camps@ == old(self).camps@,
            (forall|k: int|
                0 <= k < old(self).active_monsters@.len() ==> (#[trigger] old(
                    self,
                ).active_monsters@[k]).id != id) ==> reward.is_none() && final(self).active_monsters@
                == old(self).active_monsters@ && *final(board) == *old(board),
            forall|k: int|
                0 <= k < old(self).active_monsters@.len() && (#[trigger] old(
                    self,
                ).active_monsters@[k]).id == id && (forall|j: int|
                    0 <= j < k ==> (#[trigger] old(self).active_monsters@[j]).id != id) ==> {
                    let m = old(self).active_monsters@[k];
                    if health_after(m.health, effects@) == 0 {
                        &&& reward == Some((attacker, m.xp_reward))
                        &&& final(self).active_monsters@ == old(self).active_monsters@.remove(k)
                    } else {
                        &&& reward.is_none()
                        &&& final(self).active_monsters@ == old(self).active_monsters@.update(
                            k,
                            Monster { health: health_after(m.health, effects@), ..m },
                        )
                    }
                },
    {
        match self.find_monster(id) {
            None => None,
            Some(i) => {
                let m = self.active_monsters[i];
                assert forall|k: int|
                    0 <= k < old(self).active_monsters@.len() && (#[trigger] old(
                        self,
                    ).active_monsters@[k]).id == id && (forall|j: int|
                        0 <= j < k ==> (#[trigger] old(self).active_monsters@[j]).id != id) implies k
                    == i by {
                    if k > i {
                        assert(old(self).active_monsters@[i as int].id == id);
                    }
                }
                let h = health_after_effects(m.health, effects);
                if h == 0 {
                    let ghost b0 = *board;
                    board.clear_cell(m.row as usize, m.col as usize);
                    proof {
                        lemma_with_cell_keeps_destroyed(b0, *board, m.row as int, m.col as int, Cell { content: None, ..b0.cell_at(m.row as int, m.col as int) });
                    }
                    self.active_monsters.remove(i);
                    Some((attacker, m.xp_reward))
                } else {
                    self.active_monsters.set(i, Monster { health: h, ..m });
                    None
                }
            },
        }
    }
}

} // verus!
