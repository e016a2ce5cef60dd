use chess_prep::analyzer::AnalyzedPosition;
use chess_prep::config::ScoringWeights;
use chess_prep::engine::{Evaluation, ScoredMove};
use chess_prep::scorer::{ComplexityScorer, NoveltyScorer, Scorer};

fn mv(uci: &str, cp: i32) -> ScoredMove {
    ScoredMove { uci: uci.to_string(), eval: Evaluation::Cp(cp), pv: vec![uci.to_string()] }
}

fn pos(fen: &str, count: u32, moves: Vec<ScoredMove>) -> AnalyzedPosition {
    let eval = if moves.is_empty() { Evaluation::Cp(0) } else { moves[0].eval };
    AnalyzedPosition {
        fen: fen.to_string(),
        opponent_count: count,
        eval,
        best_move: "e2e4".to_string(),
        candidate_moves: moves,
    }
}

#[test]
fn test_novelty_scorer() {
    // 10 * (1 - 3 / 60) = 9.5 points, in units of 1 / (300 * 20).
    let p = pos("start", 3, vec![]);
    assert_eq!(NoveltyScorer { novelty_threshold: 20 }.score(&p), 57000);
}

#[test]
fn novelty_is_full_at_zero_count_and_nil_without_threshold() {
    let p = pos("start", 0, vec![]);
    assert_eq!(NoveltyScorer { novelty_threshold: 5 }.score(&p), 15000);
    assert_eq!(NoveltyScorer { novelty_threshold: 0 }.score(&p), 0);
    let q = pos("start", 3, vec![]);
    assert_eq!(NoveltyScorer { novelty_threshold: 5 }.score(&q), 12000);
}

#[test]
fn test_complexity_scorer() {
    let scorer = ComplexityScorer;
    let forced = pos("pos1", 0, vec![mv("e2e4", 10)]);
    assert_eq!(scorer.score(&forced), 0);
    let complex = pos("pos2", 0, vec![mv("e2e4", 10), mv("d2d4", 10)]);
    assert_eq!(scorer.score(&complex), 1000);
    let medium = pos("pos3", 0, vec![mv("e2e4", 110), mv("d2d4", 10)]);
    assert_eq!(scorer.score(&medium), 500);
}

#[test]
fn complexity_bottoms_out_at_two_pawns() {
    let scorer = ComplexityScorer;
    assert_eq!(scorer.score(&pos("a", 0, vec![mv("e2e4", 0), mv("d2d4", 200)])), 0);
    assert_eq!(scorer.score(&pos("a", 0, vec![mv("e2e4", 0), mv("d2d4", 199)])), 5);
    assert_eq!(scorer.score(&pos("a", 0, vec![mv("e2e4", -30), mv("d2d4", 10)])), 800);
    let mate = ScoredMove { uci: "h5f7".to_string(), eval: Evaluation::Mate(1), pv: vec![] };
    assert_eq!(scorer.score(&pos("a", 0, vec![mate, mv("d2d4", 0)])), 0);
}

#[test]
fn test_scorer_integration() {
    // Threshold 2: a count of 0 is a novelty of 10, a count of 3 one of 5.
    let scorer = Scorer::new(ScoringWeights { novelty: 60, complexity: 40 }, 2);
    let positions = vec![
        // Complexity 10; final 0.6 * 10 + 0.4 * 10 = 10.
        pos("pos1", 0, vec![mv("e2e4", 10), mv("d2d4", 10)]),
        // Complexity 0; final 0.6 * 5 + 0.4 * 0 = 3.
        pos("pos2", 3, vec![mv("e2e4", 10)]),
    ];
    let results = scorer.score(&positions);
    assert_eq!(results.len(), 2);
    assert_eq!(results[0].fen, "pos1");
    // Final scores are 60000 times the score in points (100 * 300 * 2).
    assert_eq!(results[0].final_score, 10 * 60000);
    assert_eq!(results[1].fen, "pos2");
    assert_eq!(results[1].final_score, 3 * 60000);
}

#[test]
fn without_threshold_complexity_alone_ranks() {
    let scorer = Scorer::new(ScoringWeights { novelty: 60, complexity: 40 }, 0);
    let positions = vec![
        pos("pos2", 0, vec![mv("e2e4", 10)]),
        pos("pos1", 0, vec![mv("e2e4", 10), mv("d2d4", 10)]),
    ];
    let results = scorer.score(&positions);
    assert_eq!(results[0].fen, "pos1");
    assert_eq!(results[0].complexity_score, 1000);
    assert_eq!(results[0].final_score, 40 * 3 * 1000);
    assert_eq!(results[1].fen, "pos2");
    assert_eq!(results[1].final_score, 0);
}

#[test]
fn weighted_sum_ranks_novelty_against_complexity() {
    // Threshold 5: novelty units of 1 / 1500 point.
    let scorer = Scorer::new(ScoringWeights { novelty: 60, complexity: 40 }, 5);
    let positions = vec![
        // novelty 10, complexity 10: final 10.
        pos("pos1", 0, vec![mv("e2e4", 10), mv("d2d4", 10)]),
        // novelty 8, complexity 0: final 4.8.
        pos("pos2", 3, vec![mv("e2e4", 10)]),
        // novelty 10, complexity 5: final 8.
        pos("pos3", 0, vec![mv("e2e4", 110), mv("d2d4", 10)]),
    ];
    let results = scorer.score(&positions);
    let order: Vec<&str> = results.iter().map(|l| l.fen.as_str()).collect();
    assert_eq!(order, vec!["pos1", "pos3", "pos2"]);
    // Final scores are 150000 times the score in points (100 * 300 * 5).
    assert_eq!(results[0].final_score, 1_500_000);
    assert_eq!(results[1].final_score, 1_200_000);
    assert_eq!(results[2].final_score, 720_000);
    assert_eq!(results[0].pv, vec!["e2e4".to_string()]);
    assert_eq!(results[2].novelty_score, 12000);
}

#[test]
fn ties_are_ordered_by_text_then_kept_in_order() {
    let scorer = Scorer::new(ScoringWeights { novelty: 60, complexity: 40 }, 5);
    let mut b = pos("b", 1, vec![]);
    b.best_move = "first".to_string();
    let mut b2 = pos("b", 1, vec![]);
    b2.best_move = "second".to_string();
    let positions = vec![b, pos("c", 1, vec![]), b2, pos("a", 1, vec![])];
    let results = scorer.score(&positions);
    let order: Vec<(&str, &str)> = results.iter().map(|l| (l.fen.as_str(), l.best_move.as_str())).collect();
    assert_eq!(order, vec![("a", "e2e4"), ("b", "first"), ("b", "second"), ("c", "e2e4")]);
    assert!(results.iter().all(|l| l.pv.is_empty()));
    assert!(scorer.score(&vec![]).is_empty());
}
