use vstd::prelude::*;

use crate::cell::CellAnimation;

verus! {

/// What the animation pass asks of the board.
#[derive(Debug, Clone, Copy, PartialEq, Eq, Structural)]
pub enum AnimationCommand {
    Draw { row: u16, col: u16, animation_type: CellAnimation },
    Clear { row: u16, col: u16 },
    Done,
}

/// A short visual effect drawn at its owner's position for a few frames.
#[derive(Debug, Clone, Copy)]
pub struct Animation {
    pub kind: CellAnimation,
    /// The entity the animation follows.
    pub owner_id: usize,
    pub target_id: Option<usize>,
    pub frame: u8,
    pub frames: u8,
    pub last_drawn: Option<(u16, u16)>,
}

/// One frame of an animation whose owner stands at `(row, col)`: the
/// command it produces and its state afterwards.
pub open spec fn frame_step(a: Animation, row: u16, col: u16) -> (AnimationCommand, Animation) {
    if a.frame >= a.frames {
        (AnimationCommand::Done, a)
    } else {
        (
            AnimationCommand::Draw { row, col, animation_type: a.kind },
            Animation { frame: (a.frame + 1) as u8, last_drawn: Some((row, col)), ..a },
        )
    }
}

impl Animation {
    pub fn new(kind: CellAnimation, owner_id: usize, target_id: Option<usize>, frames: u8) -> (a:
        Animation)
        ensures
            a == (Animation { kind, owner_id, target_id, frame: 0, frames, last_drawn: None }),
    {
        Animation { kind, owner_id, target_id, frame: 0, frames, last_drawn: None }
    }

    pub fn get_owner_id(&self) -> (r: usize)
        ensures
            r == self.owner_id,
    {
        self.owner_id
    }

    pub fn get_last_drawn_pos(&self) -> (r: Option<(u16, u16)>)
        ensures
            r == self.last_drawn,
    {
        self.last_drawn
    }

    /// Advances one frame with the owner at `(row, col)`.
    pub fn next_frame(&mut self, row: u16, col: u16) -> (cmd: AnimationCommand)
        ensures
            (cmd, *final(self)) == frame_step(*old(self), row, col),
    {
        if self.frame >= self.frames {
            AnimationCommand::Done
        } else {
            self.frame = self.frame + 1;
            self.last_drawn = Some((row, col));
            AnimationCommand::Draw { row, col, animation_type: self.kind }
        }
    }
}

/// Position of the first entity of `owners` with identifier `id`.
pub open spec fn owner_pos(owners: Seq<(usize, u16, u16)>, id: usize) -> Option<(u16, u16)>
    decreases owners.len(),
{
    if owners.len() == 0 {
        None
    } else if owners[0].0 == id {
        Some((owners[0].1, owners[0].2))
    } else {
        owner_pos(owners.drop_first(), id)
    }
}

pub fn find_owner(owners: &Vec<(usize, u16, u16)>, id: usize) -> (r: Option<(u16, u16)>)
    ensures
        r == owner_pos(owners@, id),
{
    let mut i: usize = 0;
    assert(owners@.subrange(0, owners@.len() as int) =~= owners@);
    while i < owners.len()
        invariant
            0 <= i <= owners@.len(),
            owner_pos(owners@, id) == owner_pos(owners@.subrange(i as int, owners@.len() as int), id),
        decreases owners.len() - i,
    {
        proof {
            let rest = owners@.subrange(i as int, owners@.len() as int);
            assert(rest.drop_first() =~= owners@.subrange(i as int + 1, owners@.len() as int));
        }
        if owners[i].0 == id {
            return Some((owners[i].1, owners[i].2));
        }
        i = i + 1;
    }
    None
}

/// The clear commands for the last drawn position of each animation, in order.
pub open spec fn clear_commands(anims: Seq<Animation>) -> Seq<AnimationCommand>
    decreases anims.len(),
{
    if anims.len() == 0 {
        Seq::empty()
    } else {
        let prev = clear_commands(anims.drop_last());
        match anims.last().last_drawn {
            Some((row, col)) => prev.push(AnimationCommand::Clear { row, col }),
            None => prev,
        }
    }
}

/// Animations that survive one frame: an animation whose owner no longer
/// exists is dropped, one that finishes is dropped, the others advance.
pub open spec fn kept_animations(anims: Seq<Animation>, owners: Seq<(usize, u16, u16)>) -> Seq<
    Animation,
>
    decreases anims.len(),
{
    if anims.len() == 0 {
        Seq::empty()
    } else {
        let prev = kept_animations(anims.drop_last(), owners);
        let a = anims.last();
        match owner_pos(owners, a.owner_id) {
            None => prev,
            Some((r, c)) => {
                let (cmd, next) = frame_step(a, r, c);
                if cmd is Draw { prev.push(next) } else { prev }
            },
        }
    }
}

/// The draw commands of the animations that survive, in order.
pub open spec fn draw_commands(anims: Seq<Animation>, owners: Seq<(usize, u16, u16)>) -> Seq<
    AnimationCommand,
>
    decreases anims.len(),
{
    if anims.len() == 0 {
        Seq::empty()
    } else {
        let prev = draw_commands(anims.drop_last(), owners);
        let a = anims.last();
        match owner_pos(owners, a.owner_id) {
            None => prev,
            Some((r, c)) => {
                let (cmd, next) = frame_step(a, r, c);
                if cmd is Draw { prev.push(cmd) } else { prev }
            },
        }
    }
}

/// Every kept animation belongs to an owner that still exists.
pub proof fn lemma_kept_have_owners(anims: Seq<Animation>, owners: Seq<(usize, u16, u16)>)
    ensures
        forall|k: int|
            0 <= k < kept_animations(anims, owners).len() ==> owner_pos(
                owners,
                (#[trigger] kept_animations(anims, owners)[k]).owner_id,
            ).is_some(),
    decreases anims.len(),
{
    if anims.len() > 0 {
        lemma_kept_have_owners(anims.drop_last(), owners);
    }
}

/// An animation whose owner is gone leaves a clear command for where it was
/// last drawn, and nothing of it is kept for the next tick.
pub proof fn lemma_orphan_animation_dropped(
    anims: Seq<Animation>,
    owners: Seq<(usize, u16, u16)>,
    a: Animation,
)
    requires
        owner_pos(owners, a.owner_id).is_none(),
        a.last_drawn.is_some(),
    ensures
        clear_commands(anims.push(a)).last() == (AnimationCommand::Clear {
            row: a.last_drawn.unwrap().0,
            col: a.last_drawn.unwrap().1,
        }),
        kept_animations(anims.push(a), owners) == kept_animations(anims, owners),
        draw_commands(anims.push(a), owners) == draw_commands(anims, owners),
{
    assert(anims.push(a).drop_last() =~= anims);
}

/// One frame of the animation pass: appends to `clears` a clear command for
/// the last drawn position of every animation, appends to `draws` the next
/// frame of each that goes on, and returns those that go on.
pub fn advance_animations(
    anims: &Vec<Animation>,
    owners: &Vec<(usize, u16, u16)>,
    clears: &mut Vec<AnimationCommand>,
    draws: &mut Vec<AnimationCommand>,
) -> (kept: Vec<Animation>)
    ensures
        final(clears)@ == old(clears)@ + clear_commands(anims@),
        final(draws)@ == old(draws)@ + draw_commands(anims@, owners@),
        kept@ == kept_animations(anims@, owners@),
{
    let ghost clears0 = clears@;
    let ghost draws0 = draws@;
    let mut kept: Vec<Animation> = Vec::new();
    let mut i: usize = 0;
    while i < anims.len()
        invariant
            0 <= i <= anims@.len(),
            clears@ == clears0 + clear_commands(anims@.take(i as int)),
            draws@ == draws0 + draw_commands(anims@.take(i as int), owners@),
            kept@ == kept_animations(anims@.take(i as int), owners@),
        decreases anims.len() - i,
    {
        proof {
            assert(anims@.take(i as int + 1).drop_last() =~= anims@.take(i as int));
        }
        let mut a = anims[i];
        if let Some((row, col)) = a.get_last_drawn_pos() {
            clears.push(AnimationCommand::Clear { row, col });
        }
        if let Some((row, col)) = find_owner(owners, a.get_owner_id()) {
            let cmd = a.next_frame(row, col);
            if let AnimationCommand::Draw { .. } = cmd {
                draws.push(cmd);
                kept.push(a);
            }
        }
        proof {
            assert(clears@ =~= clears0 + clear_commands(anims@.take(i as int + 1)));
            assert(draws@ =~= draws0 + draw_commands(anims@.take(i as int + 1), owners@));
        }
        i = i + 1;
    }
    assert(anims@.take(anims@.len() as int) =~= anims@);
    kept
}

} // verus!
