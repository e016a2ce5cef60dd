use chess_prep::reachability::{ReachabilityEngine, RepertoryVisitor};
use chess_prep::tree::{OpponentTree, PgnVisitor};

const START: &str = "rnbqkbnr/pppppppp/8/8/8/8/PPPPPPPP/RNBQKBNR w KQkq -";
const AFTER_E4: &str = "rnbqkbnr/pppppppp/8/8/4P3/8/PPPP1PPP/RNBQKBNR b KQkq -";
const AFTER_D4: &str = "rnbqkbnr/pppppppp/8/8/3P4/8/PPP1PPPP/RNBQKBNR b KQkq -";
const AFTER_E5: &str = "rnbqkbnr/pppp1ppp/8/4p3/4P3/8/PPPP1PPP/RNBQKBNR w KQkq -";
const AFTER_NF3: &str = "rnbqkbnr/pppp1ppp/8/4p3/4P3/5N2/PPPP1PPP/RNBQKB1R b KQkq -";
const AFTER_NC6: &str = "r1bqkbnr/pppp1ppp/2n5/4p3/4P3/5N2/PPPP1PPP/RNBQKB1R w KQkq -";
const AFTER_BB5: &str = "r1bqkbnr/pppp1ppp/2n5/1B2p3/4P3/5N2/PPPP1PPP/RNBQK2R b KQkq -";

/// One movetext event, as a PGN reader reports it.
enum Ev {
    Move(&'static str),
    Open,
    Close,
}

/// Feeds one game's movetext to the visitor, stopping at a move that
/// cannot be played.
fn read_repertory_game(v: &mut RepertoryVisitor, events: &[Ev]) {
    v.begin_movetext();
    for e in events {
        match e {
            Ev::Move(m) => {
                if !v.san(m) {
                    return;
                }
            }
            Ev::Open => v.begin_variation(),
            Ev::Close => v.end_variation(),
        }
    }
}

fn opponent_tree(games: &[&[&str]], name: &str) -> OpponentTree {
    let mut v = PgnVisitor::new(name.to_string());
    for moves in games {
        v.tag(b"White", name.as_bytes());
        let mut all = true;
        for m in moves.iter() {
            if !v.san(m) {
                all = false;
                break;
            }
        }
        if all {
            v.end_game();
        }
    }
    v.tree
}

#[test]
fn test_apply_uci() {
    let engine = ReachabilityEngine::new(3);
    let (next, san) = engine.apply_uci(START, "e2e4").unwrap();
    assert_eq!(next, AFTER_E4);
    assert_eq!(san, "e4");
}

#[test]
fn apply_uci_refuses_illegal_moves_and_bad_texts() {
    let engine = ReachabilityEngine::new(3);
    assert_eq!(engine.apply_uci(START, "e2e5"), None);
    assert_eq!(engine.apply_uci(START, "nonsense"), None);
    assert_eq!(engine.apply_uci("not a position", "e2e4"), None);
    let (_, san) = engine.apply_uci(START, "g1f3").unwrap();
    assert_eq!(san, "Nf3");
}

#[test]
fn test_repertory_visitor_simple() {
    let mut v = RepertoryVisitor::new();
    read_repertory_game(&mut v, &[Ev::Move("e4"), Ev::Move("e5")]);
    assert!(v.positions.contains(START));
    assert!(v.positions.contains(AFTER_E4));
    let parent_info = v.parents.get(AFTER_E4).unwrap();
    assert_eq!(parent_info.0, START);
    assert_eq!(parent_info.1, "e4");
}

#[test]
fn test_repertory_visitor_variations() {
    // 1. e4 (1. d4 d5) e5
    let mut v = RepertoryVisitor::new();
    read_repertory_game(
        &mut v,
        &[Ev::Move("e4"), Ev::Open, Ev::Move("d4"), Ev::Move("d5"), Ev::Close, Ev::Move("e5")],
    );
    assert!(v.positions.contains(START));
    assert!(v.positions.contains(AFTER_E4));
    assert!(v.positions.contains(AFTER_D4));
    assert_eq!(v.parents.get(AFTER_E4).unwrap().0, START);
    assert_eq!(v.parents.get(AFTER_D4).unwrap().0, START);
    // The main line goes on after the variation: 1... e5 follows 1. e4.
    assert_eq!(v.parents.get(AFTER_E5).unwrap().0, AFTER_E4);
    assert_eq!(v.depth(), 1);
}

#[test]
fn illegal_move_leaves_the_repertoire_unchanged_but_for_the_position() {
    let mut v = RepertoryVisitor::new();
    read_repertory_game(&mut v, &[Ev::Move("e4"), Ev::Move("e4"), Ev::Move("e5")]);
    assert!(v.parents.get(AFTER_E5).is_none());
    assert_eq!(v.children.len(), 1);
    // A new game starts again from the initial position.
    read_repertory_game(&mut v, &[Ev::Move("d4")]);
    assert_eq!(v.parents.get(AFTER_D4).unwrap().0, START);
    assert_eq!(v.children.len(), 2);
}

#[test]
fn test_compute_intersection_and_opponent_tree() {
    let mut repertory = RepertoryVisitor::new();
    read_repertory_game(&mut repertory, &[Ev::Move("e4"), Ev::Move("e5")]);
    let tree = opponent_tree(&[&["e4", "e5", "Nf3", "Nc6", "Bb5"], &["d4", "d5"]], "Opp");
    let engine = ReachabilityEngine::new(10);
    let result = engine.compute(&repertory, &tree, 2);
    let has = |f: &str| result.positions.iter().any(|p| p == f);
    assert!(has(START));
    assert!(has(AFTER_E4));
    assert!(has(AFTER_E5));
    assert!(has(AFTER_NF3));
    assert!(has(AFTER_NC6));
    assert!(has(AFTER_BB5));
    assert!(!has(AFTER_D4));
}

#[test]
fn depth_limit_and_parent_entries() {
    let mut repertory = RepertoryVisitor::new();
    read_repertory_game(&mut repertory, &[Ev::Move("e4"), Ev::Move("e5")]);
    let tree = opponent_tree(&[&["e4", "e5", "Nf3", "Nc6", "Bb5"]], "Opp");
    // Positions at depth 0 to 2 only.
    let result = ReachabilityEngine::new(3).compute(&repertory, &tree, 2);
    let mut got: Vec<String> = result.positions.clone();
    got.sort();
    let mut want = vec![START.to_string(), AFTER_E4.to_string(), AFTER_E5.to_string()];
    want.sort();
    assert_eq!(got, want);
    assert_eq!(result.parents.get(AFTER_E5).unwrap(), &(AFTER_E4.to_string(), "e5".to_string()));
    // The move out of the deepest explored position has its entry too.
    assert_eq!(result.parents.get(AFTER_NF3).unwrap().0, AFTER_E5);
    assert!(result.parents.get(START).is_none());
    // No depth: nothing explored.
    let none = ReachabilityEngine::new(0).compute(&repertory, &tree, 2);
    assert!(none.positions.is_empty());
}

#[test]
fn without_shared_moves_the_opponent_tree_is_followed_from_the_start() {
    let mut repertory = RepertoryVisitor::new();
    read_repertory_game(&mut repertory, &[Ev::Move("c4")]);
    let tree = opponent_tree(&[&["d4", "d5"]], "Opp");
    let result = ReachabilityEngine::new(10).compute(&repertory, &tree, 4);
    assert_eq!(result.positions.len(), 3);
    assert!(result.positions.iter().any(|p| p == AFTER_D4));
}

#[test]
fn mask_zero_ignores_the_repertoire() {
    let mut repertory = RepertoryVisitor::new();
    read_repertory_game(&mut repertory, &[Ev::Move("e4"), Ev::Move("e5")]);
    let tree = opponent_tree(&[&["e4", "e5", "Nf3", "Nc6", "Bb5"], &["d4", "d5"]], "Opp");
    let engine = ReachabilityEngine::new(10);
    let with_mask_zero = engine.compute(&repertory, &tree, 0);
    let without_repertoire = engine.compute(&RepertoryVisitor::new(), &tree, 4);
    assert_eq!(with_mask_zero.positions, without_repertoire.positions);
    for p in &with_mask_zero.positions {
        assert_eq!(with_mask_zero.parents.get(p), without_repertoire.parents.get(p));
    }
    assert_eq!(with_mask_zero.parents.len(), without_repertoire.parents.len());
    assert!(with_mask_zero.positions.iter().any(|p| p == AFTER_D4));
}

#[test]
fn lines_of_an_acyclic_tree_end_at_the_start() {
    let mut repertory = RepertoryVisitor::new();
    read_repertory_game(&mut repertory, &[Ev::Move("e4"), Ev::Move("e5")]);
    let tree = opponent_tree(&[&["e4", "e5", "Nf3", "Nc6", "Bb5"], &["d4", "d5"]], "Opp");
    let result = ReachabilityEngine::new(10).compute(&repertory, &tree, 2);
    assert!(result.parents.get(START).is_none());
    for p in &result.positions {
        let mut cur = p.clone();
        let mut steps = 0;
        while let Some((parent, _)) = result.parents.get(&cur) {
            assert!(result.positions.iter().any(|q| q == parent));
            cur = parent.clone();
            steps += 1;
            assert!(steps < result.positions.len());
        }
        assert_eq!(cur, START);
    }
}

#[test]
fn a_tree_that_returns_to_the_start_gives_it_an_entry() {
    let repertory = RepertoryVisitor::new();
    let tree = opponent_tree(&[&["Nf3", "Nf6", "Ng1", "Ng8"]], "Opp");
    let result = ReachabilityEngine::new(10).compute(&repertory, &tree, 0);
    assert_eq!(result.positions.len(), 4);
    assert_eq!(result.parents.get(START).unwrap().1, "Ng8");
}
