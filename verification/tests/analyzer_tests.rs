use chess_prep::analyzer::{analyzed_position, is_acceptable_eval, is_opponent_white, passes_filter};
use chess_prep::config::EvalBounds;
use chess_prep::engine::{Evaluation, ScoredMove};
use chess_prep::profiler::ProfiledPosition;

const START: &str = "rnbqkbnr/pppppppp/8/8/8/8/PPPPPPPP/RNBQKBNR w KQkq -";
const AFTER_E4: &str = "rnbqkbnr/pppppppp/8/8/4P3/8/PPPP1PPP/RNBQKBNR b KQkq -";

fn mv(uci: &str, eval: Evaluation) -> ScoredMove {
    ScoredMove { uci: uci.to_string(), eval, pv: vec![uci.to_string()] }
}

#[test]
fn test_is_opponent_white() {
    assert!(is_opponent_white("rnbqkbnr/pppppppp/8/8/8/8/PPPPPPPP/RNBQKBNR w KQkq -"));
    assert!(!is_opponent_white("rnbqkbnr/pppppppp/8/8/8/8/PPPPPPPP/RNBQKBNR b KQkq -"));
}

#[test]
fn test_is_acceptable_eval() {
    // 0.0 and -0.5 pawns, in hundredths.
    let bounds = EvalBounds { white_min: 0, black_min: -50 };
    assert!(!is_acceptable_eval(&Evaluation::Cp(30), false, &bounds));
    assert!(is_acceptable_eval(&Evaluation::Cp(-10), false, &bounds));
    assert!(is_acceptable_eval(&Evaluation::Cp(30), true, &bounds));
    assert!(!is_acceptable_eval(&Evaluation::Cp(80), true, &bounds));
}

#[test]
fn side_to_move_needs_a_second_token() {
    assert!(!is_opponent_white("w"));
    assert!(!is_opponent_white(""));
    assert!(is_opponent_white("  board   w  "));
}

#[test]
fn bounds_are_inclusive_and_mates_count_as_a_hundred_pawns() {
    let bounds = EvalBounds { white_min: 0, black_min: -50 };
    assert!(is_acceptable_eval(&Evaluation::Cp(0), false, &bounds));
    assert!(is_acceptable_eval(&Evaluation::Cp(50), true, &bounds));
    assert!(!is_acceptable_eval(&Evaluation::Cp(51), true, &bounds));
    // The side to move mates: very bad for the user.
    assert!(!is_acceptable_eval(&Evaluation::Mate(3), false, &bounds));
    // The side to move is mated: very good for the user.
    assert!(is_acceptable_eval(&Evaluation::Mate(-3), true, &bounds));
    assert_eq!(Evaluation::Mate(3).to_centipawns(), 9700);
    assert_eq!(Evaluation::Mate(-3).to_centipawns(), -9700);
    assert_eq!(Evaluation::Cp(-42).to_centipawns(), -42);
}

#[test]
fn filter_needs_a_move_and_an_acceptable_best_one() {
    let bounds = EvalBounds { white_min: 0, black_min: -50 };
    assert!(!passes_filter(START, &vec![], &bounds));
    // Opponent (White) to move, +0.3 for White: acceptable for the user as Black.
    assert!(passes_filter(START, &vec![mv("e2e4", Evaluation::Cp(30)), mv("d2d4", Evaluation::Cp(200))], &bounds));
    // Only the first move counts.
    assert!(!passes_filter(START, &vec![mv("e2e4", Evaluation::Cp(200)), mv("d2d4", Evaluation::Cp(0))], &bounds));
    // Opponent (Black) to move, +0.1 for Black: the user as White is below 0.
    assert!(!passes_filter(AFTER_E4, &vec![mv("e7e5", Evaluation::Cp(10))], &bounds));
}

#[test]
fn validation_records_the_first_move() {
    let pos = ProfiledPosition { fen: START.to_string(), opponent_count: 2 };
    assert_eq!(analyzed_position(&pos, vec![]), None);
    let moves = vec![mv("e2e4", Evaluation::Cp(25)), mv("d2d4", Evaluation::Cp(20))];
    let a = analyzed_position(&pos, moves.clone()).unwrap();
    assert_eq!(a.fen, START);
    assert_eq!(a.opponent_count, 2);
    assert_eq!(a.eval, Evaluation::Cp(25));
    assert_eq!(a.best_move, "e2e4");
    assert_eq!(a.candidate_moves, moves);
}
