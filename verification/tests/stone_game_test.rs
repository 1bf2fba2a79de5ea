use rustgo::engine::push_if_not_exist;
use rustgo::{Coord, Game, Stone};

#[test]
fn test_stone_glyphs() {
    assert_eq!(Stone(0).as_char(), '_');
    assert_eq!(Stone(1).as_char(), '\u{25cf}');
    assert_eq!(Stone(2).as_char(), '\u{25cb}');
    assert_eq!(Stone(3).as_char(), '$');
    assert_eq!(Stone(4).as_char(), '#');
    assert_eq!(Stone(5).as_char(), '&');
    assert_eq!(Stone(6).as_char(), '@');
    assert_eq!(Stone::void(), Stone(0));
    assert_eq!(Stone::black(), Stone(1));
    assert_eq!(Stone::white(), Stone(2));
}

#[test]
fn test_next_stone_cycles() {
    // Two players: black and white alternate.
    assert_eq!(Stone(1).next_stone(2), Stone(2));
    assert_eq!(Stone(2).next_stone(2), Stone(1));
    // Six players: wraps only after the sixth color.
    let mut s = Stone(1);
    for expected in [2u8, 3, 4, 5, 6, 1, 2] {
        s = s.next_stone(6);
        assert_eq!(s, Stone(expected));
    }
    // A color above the player count wraps straight back to the first.
    assert_eq!(Stone(5).next_stone(2), Stone(1));
}

#[test]
fn test_game_passes_turn_only_on_success() {
    let mut g = Game::new(3, 2);
    assert_eq!(g.cur_stone, Stone(1));
    assert!(g.place_stone(Coord::new(0, 0)).is_ok());
    assert_eq!(g.cur_stone, Stone(2));
    // Rejected move: occupied cell; still white's turn.
    assert!(g.place_stone(Coord::new(0, 0)).is_err());
    assert_eq!(g.cur_stone, Stone(2));
    assert!(g.place_stone(Coord::new(2, 2)).is_ok());
    assert_eq!(g.cur_stone, Stone(1));
    assert_eq!(g.size(), 3);
    assert_eq!(g.board().len(), 9);
    assert_eq!(g.board()[0], Stone(1));
    assert_eq!(g.board()[8], Stone(2));
}

#[test]
fn test_push_if_not_exist_dedups() {
    let mut v: Vec<usize> = Vec::new();
    push_if_not_exist(&mut v, 4);
    push_if_not_exist(&mut v, 2);
    push_if_not_exist(&mut v, 4);
    push_if_not_exist(&mut v, 2);
    push_if_not_exist(&mut v, 9);
    assert_eq!(v, vec![4, 2, 9]);
}
