use game::cell::Team;
use game::game::PlayerUpdate;
use game::packet::{serialize_end_game, serialize_update};

#[test]
fn update_bytes_layout() {
    let u = PlayerUpdate {
        player_id: 1,
        health: 0x01020304,
        max_health: 100,
        mana: 5,
        max_mana: 6,
        level: 2,
        xp: 7,
        xp_needed: 200,
        board: vec![(1, 3), (4, 1)],
    };
    let bytes = serialize_update(&u);
    let mut expected: Vec<u8> = vec![1, 1, 2, 3, 4, 0, 0, 0, 100, 0, 0, 0, 5, 0, 0, 0, 6, 2, 0, 0, 0, 7, 0, 0, 0, 200];
    expected.extend_from_slice(&[0, 0, 0, 0, 0, 0, 0, 2]);
    expected.extend_from_slice(&[1, 0, 0, 0, 0, 0, 0, 0, 3]);
    expected.extend_from_slice(&[4, 0, 0, 0, 0, 0, 0, 0, 1]);
    assert_eq!(bytes, expected);
}

#[test]
fn end_game_names_the_winner() {
    assert_eq!(serialize_end_game(Team::Blue), vec![2, 0]);
    assert_eq!(serialize_end_game(Team::Red), vec![2, 1]);
}
