use rustgo::{Coord, Engine, ErrorKind, Stone};

const VOID: Stone = Stone(0);
const BLACK: Stone = Stone(1);
const WHITE: Stone = Stone(2);

#[test]
fn test_init() {
    let engine = Engine::new(3);
    assert_eq!(engine.board(), [VOID; 3 * 3]);
}

#[test]
fn test_1() {
    let mut engine = Engine::new(3);
    let _ = engine.place_stone(Coord::new(1, 1), BLACK);
    assert_eq!(
        engine.board_string(),
        "\
___
_\u{25cf}_
___
"
    );
}

#[test]
fn test_2() {
    let board: Vec<Stone> = vec![
        VOID, BLACK, VOID,
        BLACK, VOID, BLACK,
        VOID, BLACK, VOID,
    ];
    let mut engine = Engine::new_with_board(3, board);
    let result = engine.place_stone(Coord::new(1, 1), BLACK);
    assert!(result.is_ok());
}

#[test]
fn test_3() {
    let board: Vec<Stone> = vec![
        VOID, BLACK, VOID,
        BLACK, VOID, BLACK,
        VOID, BLACK, VOID,
    ];
    let mut engine = Engine::new_with_board(3, board);
    let result = engine.place_stone(Coord::new(1, 1), WHITE);
    assert!(result.is_err());
}

#[test]
fn test_occupied_cell_rejected_unchanged() {
    // Playing onto an occupied cell fails with AlreadyOccupied and the
    // board is byte-for-byte unchanged.
    let mut engine = Engine::new(3);
    assert!(engine.place_stone(Coord::new(1, 1), BLACK).is_ok());
    let before = engine.board_string();
    let r = engine.place_stone(Coord::new(1, 1), WHITE);
    assert_eq!(r.err(), Some(ErrorKind::AlreadyOccupied));
    assert_eq!(engine.board_string(), before);
    let r2 = engine.place_stone(Coord::new(1, 1), BLACK);
    assert_eq!(r2.err(), Some(ErrorKind::AlreadyOccupied));
    assert_eq!(engine.board_string(), before);
}

#[test]
fn test_center_self_capture_kind() {
    // A white stone inside the black diamond is suicide: no capture
    // rescues it.
    let board: Vec<Stone> = vec![
        VOID, BLACK, VOID,
        BLACK, VOID, BLACK,
        VOID, BLACK, VOID,
    ];
    let mut engine = Engine::new_with_board(3, board);
    let before = engine.board_string();
    let r = engine.place_stone(Coord::new(1, 1), WHITE);
    assert_eq!(r.err(), Some(ErrorKind::SelfCapture));
    assert_eq!(engine.board_string(), before);
}

#[test]
fn test_corner_suicide() {
    // Corner cell with both liberties taken by the opponent.
    let board: Vec<Stone> = vec![
        VOID, BLACK, VOID,
        BLACK, VOID, VOID,
        VOID, VOID, VOID,
    ];
    let mut engine = Engine::new_with_board(3, board);
    let r = engine.place_stone(Coord::new(0, 0), WHITE);
    assert_eq!(r.err(), Some(ErrorKind::SelfCapture));
}

#[test]
fn test_capture_frees_cells_and_liberties() {
    // Black captures the lone white stone in the middle of the ko
    // shape; the freed cell is empty again and every surviving
    // neighboring black group gets that liberty back.
    let board: Vec<Stone> = vec![
        VOID,  BLACK, WHITE, VOID,
        BLACK, WHITE, VOID,  WHITE,
        VOID,  BLACK, WHITE, VOID,
        VOID,  VOID,  VOID,  VOID,
    ];
    let mut engine = Engine::new_with_board(4, board);
    // Black (1,0) currently has one liberty: the cell (0,0)... plus
    // none through (1,1), which holds white.
    let root_b = engine.group_ds.find_root(1).unwrap();
    let qi_before = engine.group_info_array.get(root_b).qi;
    assert_eq!(qi_before, 1);
    // Black plays (2,1): white (1,1) loses its last liberty.
    let r = engine.place_stone(Coord::new(2, 1), BLACK);
    let res = r.unwrap();
    assert_eq!(res.eaten_stones.len(), 1);
    assert_eq!(res.eaten_stones[0], Coord::new(1, 1));
    // The captured cell is empty again.
    assert_eq!(engine.board()[1 * 4 + 1], VOID);
    // The neighboring black group got the freed liberty back.
    let root_b2 = engine.group_ds.find_root(1).unwrap();
    assert_eq!(engine.group_info_array.get(root_b2).qi, 2);
    // The new black stone at (2,1) lives on the freed cell only.
    let root_new = engine.group_ds.find_root(1 * 4 + 2).unwrap();
    assert_eq!(engine.group_info_array.get(root_new).qi, 1);
}

#[test]
fn test_positional_superko_rejected() {
    // Ko: black takes, white retakes (allowed: the starting position
    // was never recorded), black may not immediately retake again.
    let board: Vec<Stone> = vec![
        VOID,  BLACK, WHITE, VOID,
        BLACK, WHITE, VOID,  WHITE,
        VOID,  BLACK, WHITE, VOID,
        VOID,  VOID,  VOID,  VOID,
    ];
    let mut engine = Engine::new_with_board(4, board);
    let r1 = engine.place_stone(Coord::new(2, 1), BLACK);
    assert!(r1.is_ok());
    let r2 = engine.place_stone(Coord::new(1, 1), WHITE);
    assert!(r2.is_ok());
    assert_eq!(r2.unwrap().eaten_stones, vec![Coord::new(2, 1)]);
    let r3 = engine.place_stone(Coord::new(2, 1), BLACK);
    assert_eq!(r3.err(), Some(ErrorKind::PositionRepeated));
}

#[test]
fn test_merge_recomputes_liberties() {
    // Black fills the center of its own diamond: four groups merge into
    // one whose liberties are the eight remaining edge cells.
    let board: Vec<Stone> = vec![
        VOID, BLACK, VOID,
        BLACK, VOID, BLACK,
        VOID, BLACK, VOID,
    ];
    let mut engine = Engine::new_with_board(3, board);
    let r = engine.place_stone(Coord::new(1, 1), BLACK);
    assert!(r.is_ok());
    let root = engine.group_ds.find_root(4).unwrap();
    let info = engine.group_info_array.get(root);
    assert_eq!(info.qi, 4); // the four corner cells
    let mut members = info.members.clone();
    members.sort_unstable();
    assert_eq!(members, vec![1, 3, 4, 5, 7]);
}

#[test]
fn test_capture_on_board_string() {
    // A 2x2 corner capture rendered as glyphs.
    let board: Vec<Stone> = vec![
        WHITE, BLACK,
        VOID,  VOID,
    ];
    let mut engine = Engine::new_with_board(2, board);
    let r = engine.place_stone(Coord::new(0, 1), BLACK);
    let res = r.unwrap();
    assert_eq!(res.eaten_stones, vec![Coord::new(0, 0)]);
    assert_eq!(
        engine.board_string(),
        "\
_\u{25cf}
\u{25cf}_
"
    );
}

#[test]
fn test_single_cell_board_is_suicide() {
    // On a 1x1 board the only cell has no liberties and nothing to
    // capture: every move is suicide.
    let mut engine = Engine::new(1);
    let r = engine.place_stone(Coord::new(0, 0), BLACK);
    assert_eq!(r.err(), Some(ErrorKind::SelfCapture));
    assert_eq!(engine.board(), [VOID; 1]);
}

#[test]
fn test_empty_board_string() {
    let engine = Engine::new(2);
    assert_eq!(engine.board_string(), "__\n__\n");
}

#[test]
fn test_six_colors_capture() {
    // Three of six colors cooperate around one cell: the fourth color's
    // stone in the middle is captured by the last surrounding move.
    let mut engine = Engine::new(3);
    assert!(engine.place_stone(Coord::new(1, 1), Stone(4)).is_ok());
    assert!(engine.place_stone(Coord::new(0, 1), Stone(1)).is_ok());
    assert!(engine.place_stone(Coord::new(2, 1), Stone(2)).is_ok());
    assert!(engine.place_stone(Coord::new(1, 0), Stone(3)).is_ok());
    let r = engine.place_stone(Coord::new(1, 2), Stone(5));
    let res = r.unwrap();
    assert_eq!(res.eaten_stones, vec![Coord::new(1, 1)]);
    assert_eq!(engine.board()[4], VOID);
}
