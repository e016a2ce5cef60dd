use chess_prep::tree::{OpponentTree, PgnVisitor, Side};

const START: &str = "rnbqkbnr/pppppppp/8/8/8/8/PPPPPPPP/RNBQKBNR w KQkq -";

/// Feeds one game to the visitor as a PGN reader does: tags, then moves
/// until one cannot be played, then (when all were played) the end.
fn read_game(v: &mut PgnVisitor, white: &str, black: &str, moves: &[&str]) {
    v.tag(b"White", white.as_bytes());
    v.tag(b"Black", black.as_bytes());
    for m in moves {
        if !v.san(m) {
            return;
        }
    }
    v.end_game();
}

fn build(games: &[(&str, &str, &[&str])], opponent: &str) -> OpponentTree {
    let mut v = PgnVisitor::new(opponent.to_string());
    for (w, b, moves) in games {
        read_game(&mut v, w, b, moves);
    }
    v.tree
}

#[test]
fn test_position_apres_e4() {
    let tree = build(&[("Magnus", "Doria", &["e4"])], "Magnus");
    let fen = "rnbqkbnr/pppppppp/8/8/8/8/PPPPPPPP/RNBQKBNR w KQkq -".to_string();
    assert_eq!(tree.positions.get(&fen), Some(&1));
}

#[test]
fn test_deux_parties_meme_position() {
    let tree = build(&[("Magnus", "Doria", &["e4"]), ("Magnus", "Doria", &["e4"])], "Magnus");
    let fen = "rnbqkbnr/pppppppp/8/8/8/8/PPPPPPPP/RNBQKBNR w KQkq -".to_string();
    assert_eq!(tree.positions.get(&fen), Some(&2));
}

#[test]
fn test_positions_partagees_deux_parties() {
    let tree = build(
        &[("Magnus", "Doria", &["e4", "e5", "Nf3"]), ("Magnus", "Doria", &["e4", "e6", "Nf3"])],
        "Magnus",
    );
    let fen_start = "rnbqkbnr/pppppppp/8/8/8/8/PPPPPPPP/RNBQKBNR w KQkq -".to_string();
    assert_eq!(tree.positions.get(&fen_start), Some(&2));
    let fen_e5 = "rnbqkbnr/pppp1ppp/8/4p3/4P3/8/PPPP1PPP/RNBQKBNR w KQkq -".to_string();
    assert_eq!(tree.positions.get(&fen_e5), Some(&1));
}

#[test]
fn test_transposition() {
    let tree = build(
        &[
            ("Magnus", "Doria", &["e4", "e5", "Nf3", "Nc6", "Bb5"]),
            ("Magnus", "Doria", &["Nf3", "Nc6", "e4", "e5", "Bb5"]),
        ],
        "Magnus",
    );
    let fen = "r1bqkbnr/pppp1ppp/2n5/4p3/4P3/5N2/PPPP1PPP/RNBQKB1R w KQkq -".to_string();
    assert_eq!(tree.positions.get(&fen), Some(&2));
}

#[test]
fn get_count_of_unknown_position_is_zero() {
    let tree = build(&[("Magnus", "Doria", &["e4"])], "Magnus");
    assert_eq!(tree.get_count(START), 1);
    assert_eq!(tree.get_count("8/8/8/8/8/8/8/8 w - -"), 0);
}

#[test]
fn repeated_move_is_recorded_once() {
    let tree = build(&[("A", "B", &["e4"]), ("A", "B", &["e4"]), ("A", "B", &["d4"])], "A");
    let moves = tree.transitions.get(START).unwrap();
    assert_eq!(moves.len(), 2);
    assert_eq!(tree.get_count(START), 3);
    assert!(moves.contains(&("rnbqkbnr/pppppppp/8/8/4P3/8/PPPP1PPP/RNBQKBNR b KQkq -".to_string(), "e4".to_string())));
}

#[test]
fn illegal_move_stops_the_game_without_reset() {
    let mut v = PgnVisitor::new("A".to_string());
    assert!(v.san("e4"));
    assert!(!v.san("Ke2"));
    // The position stays after 1. e4: the next game starts from there.
    assert_eq!(v.position, "rnbqkbnr/pppppppp/8/8/4P3/8/PPPP1PPP/RNBQKBNR b KQkq -");
    assert!(v.san("e5"));
    v.end_game();
    assert_eq!(v.position, START);
}

#[test]
fn white_tag_tells_the_opponent_colour() {
    let mut v = PgnVisitor::new("Magnus".to_string());
    v.tag(b"White", b"Magnus");
    assert_eq!(v.opponent_color, Some(Side::White));
    v.tag(b"Black", b"Magnus");
    assert_eq!(v.opponent_color, Some(Side::White));
    v.tag(b"White", b"Doria");
    assert_eq!(v.opponent_color, Some(Side::Black));
}

use chess_prep::tree::GameEvent;

const AFTER_E4: &str = "rnbqkbnr/pppppppp/8/8/4P3/8/PPPP1PPP/RNBQKBNR b KQkq -";

fn san_ev(s: &str) -> GameEvent {
    GameEvent::San(s.to_string())
}

fn tag_ev(n: &str, v: &str) -> GameEvent {
    GameEvent::Tag(n.as_bytes().to_vec(), v.as_bytes().to_vec())
}

#[test]
fn every_move_of_every_game_counts_whoever_plays_it() {
    let games = vec![
        vec![tag_ev("White", "Magnus"), tag_ev("Black", "Doria"), san_ev("e4"), san_ev("e5")],
        vec![tag_ev("White", "Doria"), tag_ev("Black", "Magnus"), san_ev("e4"), san_ev("d5")],
    ];
    let t = OpponentTree::build_from_games(&games, "Magnus".to_string());
    assert_eq!(t.get_count(START), 2);
    assert_eq!(t.get_count(AFTER_E4), 2);
    assert_eq!(t.transitions.get(START).unwrap().len(), 1);
    assert_eq!(t.transitions.get(AFTER_E4).unwrap().len(), 2);
    // The name plays no part in the counts.
    let u = OpponentTree::build_from_games(&games, "Nobody".to_string());
    assert_eq!(u.get_count(START), 2);
    assert_eq!(u.get_count(AFTER_E4), 2);
    assert_eq!(u.transitions.get(AFTER_E4).unwrap().len(), 2);
}

#[test]
fn a_stopped_game_hands_its_position_to_the_next() {
    let games = vec![vec![san_ev("e4"), san_ev("Ke2"), san_ev("d4")], vec![san_ev("e5")]];
    let t = OpponentTree::build_from_games(&games, "A".to_string());
    assert_eq!(t.get_count(START), 1);
    // 1... e5 of the second game is played after 1. e4 of the first.
    assert_eq!(t.get_count(AFTER_E4), 1);
    assert_eq!(t.transitions.get(AFTER_E4).unwrap()[0].1, "e5");
    assert!(OpponentTree::build_from_games(&vec![], "A".to_string()).positions.len() == 0);
}
