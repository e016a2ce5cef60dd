use chess_prep::config::{Config, EvalBounds, Profile, ScoringWeights, default_min_novelty_ply, default_min_parent_count};

#[test]
fn test_default() {
    let config = Config::default();
    assert_eq!(config.stockfish_depth_filter, 15);
    assert_eq!(config.novelty_threshold, 5);
    assert_eq!(config.opponent_games_limit, 500);
    assert_eq!(config.min_novelty_ply, 6);
    assert_eq!(config.min_parent_count, 3);
}

#[test]
fn test_from_profile_quick() {
    let config = Config::from_profile(Profile::Quick);
    assert_eq!(config.stockfish_depth_filter, 10);
    assert_eq!(config.opponent_games_limit, 100);
    assert_eq!(config.max_candidates, 10);
}

#[test]
fn test_from_profile_deep() {
    let config = Config::from_profile(Profile::Deep);
    assert_eq!(config.stockfish_depth_filter, 18);
    assert_eq!(config.opponent_games_limit, 1000);
    assert_eq!(config.novelty_threshold, 3);
    assert_eq!(config.min_novelty_ply, 8);
}

#[test]
fn standard_profile_is_the_default() {
    assert_eq!(Config::from_profile(Profile::Standard), Config::default());
}

#[test]
fn profiles_share_output_bounds_and_weights() {
    for p in [Profile::Quick, Profile::Standard, Profile::Deep] {
        let c = Config::from_profile(p);
        assert_eq!(c.output_dir, "./output");
        assert!(!c.analytics_enabled);
        assert_eq!(c.eval_bounds, EvalBounds { white_min: 0, black_min: -50 });
        assert_eq!(c.scoring.weights, ScoringWeights { novelty: 60, complexity: 40 });
    }
}

#[test]
fn deep_profile_values() {
    let c = Config::from_profile(Profile::Deep);
    assert_eq!(c.stockfish_depth_validate, 28);
    assert_eq!(c.max_search_depth, 20);
    assert_eq!(c.max_candidates, 30);
    assert_eq!(c.min_parent_count, 5);
}

#[test]
fn defaults_for_missing_settings() {
    assert_eq!(default_min_novelty_ply(), 6);
    assert_eq!(default_min_parent_count(), 3);
    assert_eq!(EvalBounds::default(), EvalBounds { white_min: 0, black_min: -50 });
    assert_eq!(ScoringWeights::default(), ScoringWeights { novelty: 60, complexity: 40 });
}

#[test]
fn profile_names() {
    assert_eq!("quick".parse::<Profile>(), Ok(Profile::Quick));
    assert_eq!("standard".parse::<Profile>(), Ok(Profile::Standard));
    assert_eq!("deep".parse::<Profile>(), Ok(Profile::Deep));
    assert_eq!("Deep".parse::<Profile>(), Err("Profil inconnu : Deep".to_string()));
    assert_eq!(Profile::parse(""), Err("Profil inconnu : ".to_string()));
}
