use vstd::prelude::*;

use crate::cell::Team;
use crate::game::PlayerUpdate;

verus! {

/// First byte of a board-view message.
pub const BOARD_PACKET_TAG: u8 = 1;

/// First byte of a match-end message.
pub const END_GAME_PACKET_TAG: u8 = 2;

/// Big-endian bytes of a 32-bit value.
pub open spec fn be32(x: u32) -> Seq<u8> {
    seq![(x >> 24u32) as u8, (x >> 16u32) as u8, (x >> 8u32) as u8, x as u8]
}

/// Big-endian bytes of a 64-bit value.
pub open spec fn be64(x: u64) -> Seq<u8> {
    be32((x >> 32u64) as u32) + be32(x as u32)
}

/// Bytes of a list of runs: each run is its cell code and its length.
pub open spec fn runs_bytes(runs: Seq<(u8, usize)>) -> Seq<u8>
    decreases runs.len(),
{
    if runs.len() == 0 {
        Seq::empty()
    } else {
        runs_bytes(runs.drop_last()) + seq![runs.last().0] + be64(runs.last().1 as u64)
    }
}

/// The wire form of a player's view: tag, vitals, number of runs, runs.
pub open spec fn update_bytes(u: PlayerUpdate) -> Seq<u8> {
    seq![BOARD_PACKET_TAG] + be32(u.health) + be32(u.max_health) + be32(u.mana) + be32(u.max_mana)
        + seq![u.level] + be32(u.xp) + be32(u.xp_needed) + be64(u.board@.len() as u64) + runs_bytes(
        u.board@,
    )
}

pub open spec fn team_code(t: Team) -> u8 {
    match t {
        Team::Blue => 0,
        Team::Red => 1,
    }
}

fn push_be32(out: &mut Vec<u8>, x: u32)
    ensures
        final(out)@ == old(out)@ + be32(x),
{
    out.push((x >> 24u32) as u8);
    out.push((x >> 16u32) as u8);
    out.push((x >> 8u32) as u8);
    out.push(x as u8);
    assert(out@ =~= old(out)@ + be32(x));
}

fn push_be64(out: &mut Vec<u8>, x: u64)
    ensures
        final(out)@ == old(out)@ + be64(x),
{
    push_be32(out, (x >> 32u64) as u32);
    push_be32(out, x as u32);
    assert(out@ =~= old(out)@ + be64(x));
}

/// Serializes a player's view.
pub fn serialize_update(u: &PlayerUpdate) -> (bytes: Vec<u8>)
    ensures
        bytes@ == update_bytes(*u),
{
    let mut out: Vec<u8> = Vec::new();
    out.push(BOARD_PACKET_TAG);
    push_be32(&mut out, u.health);
    push_be32(&mut out, u.max_health);
    push_be32(&mut out, u.mana);
    push_be32(&mut out, u.max_mana);
    out.push(u.level);
    push_be32(&mut out, u.xp);
    push_be32(&mut out, u.xp_needed);
    push_be64(&mut out, u.board.len() as u64);
    let ghost header = out@;
    let mut i: usize = 0;
    while i < u.board.len()
        invariant
            0 <= i <= u.board@.len(),
            out@ == header + runs_bytes(u.board@.take(i as int)),
        decreases u.board.len() - i,
    {
        proof {
            assert(u.board@.take(i as int + 1).drop_last() =~= u.board@.take(i as int));
        }
        let (code, count) = u.board[i];
        out.push(code);
        push_be64(&mut out, count as u64);
        proof {
            assert(out@ =~= header + runs_bytes(u.board@.take(i as int + 1)));
        }
        i = i + 1;
    }
    assert(u.board@.take(u.board@.len() as int) =~= u.board@);
    assert(out@ =~= update_bytes(*u));
    out
}

/// Serializes the match-end message naming the winning team.
pub fn serialize_end_game(winner: Team) -> (bytes: Vec<u8>)
    ensures
        bytes@ == seq![END_GAME_PACKET_TAG, team_code(winner)],
{
    let code: u8 = match winner {
        Team::Blue => 0,
        Team::Red => 1,
    };
    let mut out: Vec<u8> = Vec::new();
    out.push(END_GAME_PACKET_TAG);
    out.push(code);
    assert(out@ =~= seq![END_GAME_PACKET_TAG, team_code(winner)]);
    out
}

} // verus!
