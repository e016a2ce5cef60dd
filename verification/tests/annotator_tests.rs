use chess_prep::annotator::{format_moves_as_pgn, uci_pv_to_san, BasicAnnotator};
use chess_prep::StringHashMap;

const START: &str = "rnbqkbnr/pppppppp/8/8/8/8/PPPPPPPP/RNBQKBNR w KQkq -";
const AFTER_E4: &str = "rnbqkbnr/pppppppp/8/8/4P3/8/PPPP1PPP/RNBQKBNR b KQkq -";

fn strings(v: &[&str]) -> Vec<String> {
    v.iter().map(|s| s.to_string()).collect()
}

#[test]
fn test_basic_annotator() {
    let annotator = BasicAnnotator { opponent: "Deep Blue".to_string(), parents: StringHashMap::new() };
    // The scores 8.0, 10.0 and 5.0, written with two decimals.
    let annotated_pgn = annotator.annotate_line(0, START, &strings(&["e2e4", "e7e5"]), "e2e4", "8.00", "10.00", "5.00");
    assert!(annotated_pgn.contains("[Event \"Prep vs Deep Blue - Candidate #1\"]"));
    assert!(annotated_pgn.contains("1. e4 {CP: 8.00 (N: 10.00, C: 5.00)} e5 *"));
}

#[test]
fn test_basic_annotator_with_parents() {
    let mut parents = StringHashMap::new();
    parents.insert(AFTER_E4.to_string(), (START.to_string(), "e4".to_string()));
    let annotator = BasicAnnotator { opponent: "Deep Blue".to_string(), parents };
    let annotated_pgn = annotator.annotate_line(0, AFTER_E4, &strings(&["e7e5", "g1f3"]), "e7e5", "8.00", "10.00", "5.00");
    assert!(annotated_pgn.contains("1. e4 e5 {CP: 8.00 (N: 10.00, C: 5.00)} 2. Nf3 *"));
}

#[test]
fn annotated_game_is_complete() {
    let annotator = BasicAnnotator { opponent: "Deep Blue".to_string(), parents: StringHashMap::new() };
    let pgn = annotator.annotate_line(2, START, &strings(&["e2e4"]), "e2e4", "1.50", "2.00", "0.00");
    let expected = "[Event \"Prep vs Deep Blue - Candidate #3\"]\n\
[Site \"chess-prep\"]\n\
[Date \"2026.06.26\"]\n\
[White \"Deep Blue\"]\n\
[Black \"User\"]\n\
[Result \"*\"]\n\
[Score \"1.50\"]\n\
[Novelty \"2.00\"]\n\
[Complexity \"0.00\"]\n\
\n\
1. e4 {CP: 1.50 (N: 2.00, C: 0.00)} *\n\n";
    assert_eq!(pgn, expected);
}

#[test]
fn opponent_plays_black_when_black_is_to_move() {
    let annotator = BasicAnnotator { opponent: "Opp".to_string(), parents: StringHashMap::new() };
    let pgn = annotator.annotate_line(0, AFTER_E4, &vec![], "e7e5", "1.00", "1.00", "1.00");
    assert!(pgn.contains("[White \"User\"]\n[Black \"Opp\"]\n"));
    // No variation: the best move stands as the novelty, as given.
    assert!(pgn.contains("\n\n1. e7e5 {CP: 1.00 (N: 1.00, C: 1.00)} *\n\n"));
}

#[test]
fn variation_stops_at_the_first_illegal_move() {
    assert_eq!(uci_pv_to_san(START, &strings(&["e2e4", "e7e5", "g1f3"])), strings(&["e4", "e5", "Nf3"]));
    assert_eq!(uci_pv_to_san(START, &strings(&["e2e4", "e2e4", "g1f3"])), strings(&["e4"]));
    assert_eq!(uci_pv_to_san(START, &strings(&["zz", "e2e4"])), Vec::<String>::new());
    // Not a position: the variation comes back unchanged.
    assert_eq!(uci_pv_to_san("not a position", &strings(&["e2e4", "x"])), strings(&["e2e4", "x"]));
}

#[test]
fn moves_are_numbered_in_pairs() {
    assert_eq!(format_moves_as_pgn(&strings(&["e4", "e5", "Nf3"])), "1. e4 e5 2. Nf3");
    assert_eq!(format_moves_as_pgn(&strings(&["d4"])), "1. d4");
    assert_eq!(format_moves_as_pgn(&vec![]), "");
}

use chess_prep::scorer::ScoredLine;

fn line(fen: &str, best: &str, pv: &[&str]) -> ScoredLine {
    ScoredLine {
        fen: fen.to_string(),
        best_move: best.to_string(),
        novelty_score: 0,
        complexity_score: 0,
        final_score: 0,
        pv: strings(pv),
    }
}

fn texts3(a: &str, b: &str, c: &str) -> (String, String, String) {
    (a.to_string(), b.to_string(), c.to_string())
}

#[test]
fn annotation_holds_one_game_per_line_in_order() {
    let mut parents = StringHashMap::new();
    parents.insert(AFTER_E4.to_string(), (START.to_string(), "e4".to_string()));
    let annotator = BasicAnnotator { opponent: "Deep Blue".to_string(), parents };
    let lines = vec![line(START, "e2e4", &["e2e4", "e7e5"]), line(AFTER_E4, "e7e5", &["e7e5", "g1f3"])];
    let scores = vec![texts3("8.00", "10.00", "5.00"), texts3("7.00", "9.00", "4.00")];
    let pgn = annotator.annotate(&lines, &scores);
    let first = annotator.annotate_line(0, START, &lines[0].pv, "e2e4", "8.00", "10.00", "5.00");
    let second = annotator.annotate_line(1, AFTER_E4, &lines[1].pv, "e7e5", "7.00", "9.00", "4.00");
    assert_eq!(pgn, format!("{}{}", first, second));
    assert!(pgn.contains("[Event \"Prep vs Deep Blue - Candidate #2\"]"));
    assert!(pgn.contains("1. e4 e5 {CP: 7.00 (N: 9.00, C: 4.00)} 2. Nf3 *"));
    assert_eq!(annotator.annotate(&vec![], &vec![]), "");
}
