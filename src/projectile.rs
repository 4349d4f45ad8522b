use vstd::prelude::*;

use crate::animation::AnimationCommand;
use crate::board::dist;
use crate::cell::{CellAnimation, Team};
use crate::entities::{GameplayEffect, PendingEffect, Target};

verus! {

/// A projectile hits once it is this close to its target.
pub const HIT_RADIUS: u16 = 1;

/// A homing projectile in flight.
pub struct Projectile {
    pub owner_id: usize,
    pub team: Team,
    pub target: Target,
    pub row: u16,
    pub col: u16,
    /// Cells covered per tick along each axis.
    pub speed: u16,
    pub effects: Vec<GameplayEffect>,
    pub visual: CellAnimation,
    pub last_drawn: Option<(u16, u16)>,
}

/// Position of the first live entity of `targets` that is `t`.
pub open spec fn target_pos(targets: Seq<(Target, u16, u16)>, t: Target) -> Option<(u16, u16)>
    decreases targets.len(),
{
    if targets.len() == 0 {
        None
    } else if targets[0].0 == t {
        Some((targets[0].1, targets[0].2))
    } else {
        target_pos(targets.drop_first(), t)
    }
}

pub fn find_target(targets: &Vec<(Target, u16, u16)>, t: Target) -> (r: Option<(u16, u16)>)
    ensures
        r == target_pos(targets@, t),
{
    let mut i: usize = 0;
    assert(targets@.subrange(0, targets@.len() as int) =~= targets@);
    while i < targets.len()
        invariant
            0 <= i <= targets@.len(),
            target_pos(targets@, t) == target_pos(targets@.subrange(i as int, targets@.len() as int), t),
        decreases targets.len() - i,
    {
        proof {
            let rest = targets@.subrange(i as int, targets@.len() as int);
            assert(rest.drop_first() =~= targets@.subrange(i as int + 1, targets@.len() as int));
        }
        if targets[i].0 == t {
            return Some((targets[i].1, targets[i].2));
        }
        i = i + 1;
    }
    None
}

/// One coordinate moved by at most `speed` toward `to`.
pub open spec fn step_axis(from: u16, to: u16, speed: u16) -> u16 {
    if from <= to {
        if to - from <= speed { to } else { (from + speed) as u16 }
    } else {
        if from - to <= speed { to } else { (from - speed) as u16 }
    }
}

fn step_toward(from: u16, to: u16, speed: u16) -> (r: u16)
    ensures
        r == step_axis(from, to, speed),
{
    if from <= to {
        if to - from <= speed { to } else { from + speed }
    } else {
        if from - to <= speed { to } else { from - speed }
    }
}

/// Where a projectile stands after this tick's move, if its target still exists.
pub open spec fn moved_to(p: Projectile, targets: Seq<(Target, u16, u16)>) -> Option<(u16, u16)> {
    match target_pos(targets, p.target) {
        None => None,
        Some((tr, tc)) => Some((step_axis(p.row, tr, p.speed), step_axis(p.col, tc, p.speed))),
    }
}

/// Whether the projectile reaches its target this tick.
pub open spec fn hits(p: Projectile, targets: Seq<(Target, u16, u16)>) -> bool {
    match (target_pos(targets, p.target), moved_to(p, targets)) {
        (Some((tr, tc)), Some((nr, nc))) => dist(nr as int, nc as int, tr as int, tc as int)
            <= HIT_RADIUS,
        _ => false,
    }
}

/// The projectiles that stay in flight after one tick, moved.
pub open spec fn flying(ps: Seq<Projectile>, targets: Seq<(Target, u16, u16)>) -> Seq<Projectile>
    decreases ps.len(),
{
    if ps.len() == 0 {
        Seq::empty()
    } else {
        let prev = flying(ps.drop_last(), targets);
        let p = ps.last();
        match moved_to(p, targets) {
            None => prev,
            Some((nr, nc)) => if hits(p, targets) {
                prev
            } else {
                prev.push(Projectile { row: nr, col: nc, last_drawn: Some((nr, nc)), ..p })
            },
        }
    }
}

/// The effects delivered by projectiles that reach their target this tick.
pub open spec fn delivered(ps: Seq<Projectile>, targets: Seq<(Target, u16, u16)>) -> Seq<
    PendingEffect,
>
    decreases ps.len(),
{
    if ps.len() == 0 {
        Seq::empty()
    } else {
        let prev = delivered(ps.drop_last(), targets);
        let p = ps.last();
        if hits(p, targets) {
            prev.push(
                PendingEffect { attacker: Some(p.owner_id), target: p.target, effects: p.effects },
            )
        } else {
            prev
        }
    }
}

/// Board commands of one tick of flight: the old trail is cleared, and a
/// projectile that flies on is drawn where it now stands.
pub open spec fn flight_commands(ps: Seq<Projectile>, targets: Seq<(Target, u16, u16)>) -> Seq<
    AnimationCommand,
>
    decreases ps.len(),
{
    if ps.len() == 0 {
        Seq::empty()
    } else {
        let prev = flight_commands(ps.drop_last(), targets);
        let p = ps.last();
        let cleared = match p.last_drawn {
            Some((row, col)) => prev.push(AnimationCommand::Clear { row, col }),
            None => prev,
        };
        match moved_to(p, targets) {
            Some((nr, nc)) => if hits(p, targets) {
                cleared
            } else {
                cleared.push(AnimationCommand::Draw { row: nr, col: nc, animation_type: p.visual })
            },
            None => cleared,
        }
    }
}

/// A projectile whose target no longer exists delivers nothing, does not
/// fly on, and leaves only the clearing of its trail.
pub proof fn lemma_lost_target_discarded(
    ps: Seq<Projectile>,
    targets: Seq<(Target, u16, u16)>,
    p: Projectile,
)
    requires
        target_pos(targets, p.target).is_none(),
    ensures
        delivered(ps.push(p), targets) == delivered(ps, targets),
        flying(ps.push(p), targets) == flying(ps, targets),
        flight_commands(ps.push(p), targets) == match p.last_drawn {
            Some((row, col)) => flight_commands(ps, targets).push(AnimationCommand::Clear { row, col }),
            None => flight_commands(ps, targets),
        },
{
    assert(ps.push(p).drop_last() =~= ps);
}

/// Every effect that projectiles deliver is aimed at an entity that exists.
pub proof fn lemma_delivered_targets_exist(ps: Seq<Projectile>, targets: Seq<(Target, u16, u16)>)
    ensures
        forall|k: int|
            0 <= k < delivered(ps, targets).len() ==> target_pos(
                targets,
                (#[trigger] delivered(ps, targets)[k]).target,
            ).is_some(),
    decreases ps.len(),
{
    if ps.len() > 0 {
        lemma_delivered_targets_exist(ps.drop_last(), targets);
    }
}

/// Owns the projectiles in flight.
pub struct ProjectileManager {
    pub projectiles: Vec<Projectile>,
}

impl ProjectileManager {
    pub fn new() -> (m: ProjectileManager)
        ensures
            m.projectiles@.len() == 0,
    {
        ProjectileManager { projectiles: Vec::new() }
    }

    /// Launches a projectile from `origin` that follows `target`.
    pub fn create_homing_projectile(
        &mut self,
        owner_id: usize,
        team: Team,
        target: Target,
        origin: (u16, u16),
        speed: u16,
        effects: Vec<GameplayEffect>,
        visual: CellAnimation,
    )
        ensures
            final(self).projectiles@ == old(self).projectiles@.push(
                Projectile {
                    owner_id,
                    team,
                    target,
                    row: origin.0,
                    col: origin.1,
                    speed,
                    effects,
                    visual,
                    last_drawn: None,
                },
            ),
    {
        self.projectiles.push(
            Projectile {
                owner_id,
                team,
                target,
                row: origin.0,
                col: origin.1,
                speed,
                effects,
                visual,
                last_drawn: None,
            },
        );
    }

    /// Moves every projectile toward the live position of its target.
    /// Those that reach it deliver their effects and leave; those whose
    /// target is gone leave without effect.
    pub fn update_and_check_collisions(
        &mut self,
        targets: &Vec<(Target, u16, u16)>,
        hits_out: &mut Vec<PendingEffect>,
        commands: &mut Vec<AnimationCommand>,
    )
        ensures
            final(self).projectiles@ == flying(old(self).projectiles@, targets@),
            final(hits_out)@ == old(hits_out)@ + delivered(old(self).projectiles@, targets@),
            final(commands)@ == old(commands)@ + flight_commands(old(self).projectiles@, targets@),
    {
        let ghost ps = self.projectiles@;
        let ghost hits0 = hits_out@;
        let ghost cmds0 = commands@;
        let mut rest: Vec<Projectile> = Vec::new();
        core::mem::swap(&mut rest, &mut self.projectiles);
        let mut kept: Vec<Projectile> = Vec::new();
        let ghost mut i: int = 0;
        assert(ps.subrange(0, ps.len() as int) =~= ps);
        while rest.len() > 0
            invariant
                0 <= i <= ps.len(),
                rest@ == ps.subrange(i, ps.len() as int),
                kept@ == flying(ps.take(i), targets@),
                hits_out@ == hits0 + delivered(ps.take(i), targets@),
                commands@ == cmds0 + flight_commands(ps.take(i), targets@),
            decreases rest.len(),
        {
            proof {
                assert(ps.take(i + 1).drop_last() =~= ps.take(i));
                assert(rest@[0] == ps[i]);
            }
            let mut p = rest.remove(0);
            proof {
                assert(ps.take(i + 1).last() == p);
            }
            if let Some((row, col)) = p.last_drawn {
                commands.push(AnimationCommand::Clear { row, col });
            }
            if let Some((tr, tc)) = find_target(targets, p.target) {
                let nr = step_toward(p.row, tr, p.speed);
                let nc = step_toward(p.col, tc, p.speed);
                let dr: u16 = if nr >= tr { nr - tr } else { tr - nr };
                let dc: u16 = if nc >= tc { nc - tc } else { tc - nc };
                if dr <= HIT_RADIUS && dc <= HIT_RADIUS {
                    hits_out.push(PendingEffect { attacker: Some(p.owner_id), target: p.target, effects: p.effects });
                } else {
                    p.row = nr;
                    p.col = nc;
                    p.last_drawn = Some((nr, nc));
                    commands.push(AnimationCommand::Draw { row: nr, col: nc, animation_type: p.visual });
                    kept.push(p);
                }
            }
            proof {
                assert(hits_out@ =~= hits0 + delivered(ps.take(i + 1), targets@));
                assert(commands@ =~= cmds0 + flight_commands(ps.take(i + 1), targets@));
                assert(rest@ =~= ps.subrange(i + 1, ps.len() as int));
                i = i + 1;
            }
        }
        assert(ps.take(ps.len() as int) =~= ps);
        self.projectiles = kept;
    }
}

} // verus!
