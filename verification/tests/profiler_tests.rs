use chess_prep::lines::{chain_length, get_ply_count, line_to_position};
use chess_prep::profiler::{plies_within, Profiler};
use chess_prep::tree::{OpponentTree, PgnVisitor};
use chess_prep::StringHashMap;

fn read_game(v: &mut PgnVisitor, white: &str, black: &str, moves: &[&str]) {
    v.tag(b"White", white.as_bytes());
    v.tag(b"Black", black.as_bytes());
    for m in moves {
        if !v.san(m) {
            return;
        }
    }
    v.end_game();
}

fn build(games: &[&[&str]], opponent: &str) -> OpponentTree {
    let mut v = PgnVisitor::new(opponent.to_string());
    for moves in games {
        read_game(&mut v, "Magnus", "Doria", moves);
    }
    v.tree
}

fn entry(parents: &mut StringHashMap<(String, String)>, child: &str, parent: &str, san: &str) {
    parents.insert(child.to_string(), (parent.to_string(), san.to_string()));
}

#[test]
fn test_profiler_novelty_score() {
    let opponent_tree = build(&[&["e4"], &["e4"]], "Magnus");
    let fen_start = "rnbqkbnr/pppppppp/8/8/8/8/PPPPPPPP/RNBQKBNR w KQkq -";
    let fen_novelty = "rnbqkbnr/pppppppp/8/8/4P3/8/PPPP1PPP/RNBQKBNR b KQkq -";
    let reachable = vec![fen_start.to_string(), fen_novelty.to_string()];
    let mut parents = StringHashMap::new();
    entry(&mut parents, fen_novelty, fen_start, "e4");
    let profiler = Profiler::new(2, 0, 1);
    assert!(plies_within(&parents, &reachable, 10));
    let profiles = profiler.profile(&reachable, &parents, &opponent_tree);
    assert_eq!(profiles.len(), 1);
    assert_eq!(profiles[0].fen, fen_novelty);
}

#[test]
fn test_profiler_deviation_filtering() {
    let opponent_tree = build(&[&["e4", "e5"], &["e4", "e5"], &["e4", "e5"], &["e4", "e5"], &["e4", "e5"]], "Magnus");
    let fen_start = "rnbqkbnr/pppppppp/8/8/8/8/PPPPPPPP/RNBQKBNR w KQkq -";
    let fen_after_e4 = "rnbqkbnr/pppppppp/8/8/4P3/8/PPPP1PPP/RNBQKBNR b KQkq -";
    let fen_after_e5 = "rnbqkbnr/ppppqbpp/8/8/4P3/8/PPPP1PPP/RNBQKBNR w KQkq -";
    let reachable = vec![fen_start.to_string(), fen_after_e4.to_string(), fen_after_e5.to_string()];
    let mut parents = StringHashMap::new();
    entry(&mut parents, fen_after_e4, fen_start, "e4");
    entry(&mut parents, fen_after_e5, fen_after_e4, "Qe7");
    let profiler = Profiler::new(5, 0, 0);
    let profiles = profiler.profile(&reachable, &parents, &opponent_tree);
    assert_eq!(profiles.len(), 1);
    assert_eq!(profiles[0].fen, fen_after_e5);
}

#[test]
fn test_profiler_strict_filters() {
    let opponent_tree = build(&[&["e4", "e5", "Nf3", "Nc6", "Bb5", "a6", "Ba4"]], "Magnus");
    let start_fen = "rnbqkbnr/pppppppp/8/8/8/8/PPPPPPPP/RNBQKBNR w KQkq -";
    let fen_after_e4 = "rnbqkbnr/pppppppp/8/8/4P3/8/PPPP1PPP/RNBQKBNR b KQkq -";
    let fen_after_e5 = "rnbqkbnr/pppp1ppp/8/4p3/4P3/8/PPPP1PPP/RNBQKBNR w KQkq -";
    let fen_after_nf3 = "rnbqkbnr/pppp1ppp/8/4p3/4P3/5N2/PPPP1PPP/RNBQKB1R b KQkq -";
    let fen_after_nc6 = "r1bqkbnr/pppp1ppp/2n5/4p3/4P3/5N2/PPPP1PPP/RNBQKB1R w KQkq -";
    let fen_after_bb5 = "r1bqkbnr/pppp1ppp/2n5/1B2p3/4P3/5N2/PPPP1PPP/RNBQK2R b KQkq -";
    let fen_novelty = "r1bqkbnr/pppp1ppp/2n5/1B2p3/4P3/5N2/PPPP1PPP/RNBQK2R b KQkq - a6";
    let reachable = vec![fen_after_e4.to_string(), fen_novelty.to_string()];
    let mut parents = StringHashMap::new();
    entry(&mut parents, fen_after_e4, start_fen, "e4");
    entry(&mut parents, fen_novelty, fen_after_bb5, "a6");
    entry(&mut parents, fen_after_bb5, fen_after_nc6, "Bb5");
    entry(&mut parents, fen_after_nc6, fen_after_nf3, "Nc6");
    entry(&mut parents, fen_after_nf3, fen_after_e5, "Nf3");
    entry(&mut parents, fen_after_e5, fen_after_e4, "e5");

    let profiler = Profiler::new(1, 6, 1);
    let profiles = profiler.profile(&reachable, &parents, &opponent_tree);
    assert_eq!(profiles.len(), 1);
    assert_eq!(profiles[0].fen, fen_novelty);

    let profiler_strict = Profiler::new(1, 6, 5);
    let profiles_strict = profiler_strict.profile(&reachable, &parents, &opponent_tree);
    assert_eq!(profiles_strict.len(), 0);

    assert_eq!(get_ply_count(&parents, fen_novelty), 6);
    assert_eq!(
        line_to_position(&parents, fen_novelty),
        vec!["e4", "e5", "Nf3", "Nc6", "Bb5", "a6"].iter().map(|s| s.to_string()).collect::<Vec<String>>()
    );
}

#[test]
fn rarest_positions_come_first_then_by_text() {
    // The opponent left the start 3 times: twice by 1. e4, once by 1. d4.
    let opponent_tree = build(&[&["e4", "e5"], &["e4", "c5"], &["d4"]], "Magnus");
    let start = "rnbqkbnr/pppppppp/8/8/8/8/PPPPPPPP/RNBQKBNR w KQkq -";
    let e4 = "rnbqkbnr/pppppppp/8/8/4P3/8/PPPP1PPP/RNBQKBNR b KQkq -";
    let d4 = "rnbqkbnr/pppppppp/8/8/3P4/8/PPP1PPPP/RNBQKBNR b KQkq -";
    let c4 = "rnbqkbnr/pppppppp/8/8/2P5/8/PP1PPPPP/RNBQKBNR b KQkq -";
    let mut parents = StringHashMap::new();
    entry(&mut parents, e4, start, "e4");
    entry(&mut parents, d4, start, "d4");
    entry(&mut parents, c4, start, "c4");
    let reachable = vec![start.to_string(), e4.to_string(), d4.to_string(), c4.to_string()];
    let profiles = Profiler::new(3, 1, 0).profile(&reachable, &parents, &opponent_tree);
    let got: Vec<(&str, u32)> = profiles.iter().map(|p| (p.fen.as_str(), p.opponent_count)).collect();
    // e4 (count 2), d4 and c4 (count 0): c4's text comes before d4's.
    assert_eq!(got, vec![(c4, 0), (d4, 0), (e4, 2)]);
}

#[test]
fn threshold_zero_keeps_nothing() {
    let opponent_tree = build(&[&["e4"]], "Magnus");
    let start = "rnbqkbnr/pppppppp/8/8/8/8/PPPPPPPP/RNBQKBNR w KQkq -";
    let e4 = "rnbqkbnr/pppppppp/8/8/4P3/8/PPPP1PPP/RNBQKBNR b KQkq -";
    let mut parents = StringHashMap::new();
    entry(&mut parents, e4, start, "e4");
    let reachable = vec![start.to_string(), e4.to_string()];
    assert!(Profiler::new(0, 0, 0).profile(&reachable, &parents, &opponent_tree).is_empty());
}

#[test]
fn chains_are_measured_up_to_a_limit() {
    let mut parents = StringHashMap::new();
    entry(&mut parents, "c", "b", "2");
    entry(&mut parents, "b", "a", "1");
    assert_eq!(chain_length(&parents, "c", 5), Some(2));
    assert_eq!(chain_length(&parents, "c", 2), Some(2));
    assert_eq!(chain_length(&parents, "c", 1), None);
    assert_eq!(chain_length(&parents, "z", 0), Some(0));
    // A cycle never ends.
    entry(&mut parents, "a", "c", "0");
    assert_eq!(chain_length(&parents, "c", 100), None);
    assert!(!plies_within(&parents, &vec!["c".to_string()], 100));
    assert!(plies_within(&parents, &vec![], 0));
}
