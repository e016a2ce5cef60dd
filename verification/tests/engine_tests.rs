use chess_prep::engine::{parse_info_line, Evaluation};

#[test]
fn test_parse_info_line() {
    let line = "info depth 8 seldepth 8 multipv 1 score cp 24 nodes 248 nps 248000 time 1 pv e2e4 e7e5";
    let res = parse_info_line(line).unwrap();
    assert_eq!(res.0, 1);
    assert_eq!(res.1.uci, "e2e4");
    assert_eq!(res.1.eval, Evaluation::Cp(24));
    assert_eq!(res.1.pv, vec!["e2e4".to_string(), "e7e5".to_string()]);

    let line_mate = "info depth 5 multipv 2 score mate -3 pv d2d4 d7d5";
    let res_mate = parse_info_line(line_mate).unwrap();
    assert_eq!(res_mate.0, 2);
    assert_eq!(res_mate.1.uci, "d2d4");
    assert_eq!(res_mate.1.eval, Evaluation::Mate(-3));
    assert_eq!(res_mate.1.pv, vec!["d2d4".to_string(), "d7d5".to_string()]);
}

use chess_prep::engine::{is_bestmove_line, scored_moves_from_lines};

fn lines(v: &[&str]) -> Vec<String> {
    v.iter().map(|s| s.to_string()).collect()
}

#[test]
fn info_lines_need_number_score_and_variation() {
    assert_eq!(parse_info_line("info depth 8 score cp 24 pv e2e4"), None);
    assert_eq!(parse_info_line("info multipv 1 score cp 24"), None);
    assert_eq!(parse_info_line("info multipv 1 pv e2e4"), None);
    assert_eq!(parse_info_line("info multipv 1 score lowerbound 24 pv e2e4"), None);
    assert_eq!(parse_info_line("info multipv 1 score cp x pv e2e4"), None);
    assert_eq!(parse_info_line("info multipv 1 score cp 24 pv"), None);
    assert_eq!(parse_info_line("info string hello"), None);
    let (n, m) = parse_info_line("info multipv 3 score cp -7 pv g1f3").unwrap();
    assert_eq!(n, 3);
    assert_eq!(m.eval, Evaluation::Cp(-7));
    assert_eq!(m.uci, "g1f3");
}

#[test]
fn answer_ends_at_bestmove() {
    assert!(is_bestmove_line("bestmove e2e4 ponder e7e5"));
    assert!(is_bestmove_line("  bestmove e2e4\n"));
    assert!(!is_bestmove_line("info depth 1"));
    assert!(!is_bestmove_line(""));
}

#[test]
fn last_report_of_each_number_in_number_order() {
    let answer = lines(&[
        "info depth 1 multipv 2 score cp 10 pv d2d4",
        "info depth 1 multipv 1 score cp 30 pv e2e4",
        "info string NNUE enabled",
        "info depth 2 multipv 1 score cp 25 pv e2e4 e7e5",
        "info depth 2 multipv 2 score mate 4 pv g1f3",
        "bestmove e2e4 ponder e7e5",
        "info depth 3 multipv 3 score cp 0 pv a2a3",
    ]);
    let moves = scored_moves_from_lines(&answer);
    assert_eq!(moves.len(), 2);
    assert_eq!(moves[0].uci, "e2e4");
    assert_eq!(moves[0].eval, Evaluation::Cp(25));
    assert_eq!(moves[0].pv, lines(&["e2e4", "e7e5"]));
    assert_eq!(moves[1].uci, "g1f3");
    assert_eq!(moves[1].eval, Evaluation::Mate(4));
    assert!(scored_moves_from_lines(&lines(&["bestmove (none)"])).is_empty());
}
