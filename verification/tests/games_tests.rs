use chess_prep::games::{
    get_fallback_games, lichess_games_url, player_not_found_message, split_pgn_games, status_action, StatusAction,
};

#[test]
fn test_load_pgn_une_partie() {
    let games = split_pgn_games("[Event \"Test\"]\n[Site \"?\"]\n\n1. e4 e5 *\n");
    assert_eq!(games, vec!["[Event \"Test\"]\n[Site \"?\"]\n\n1. e4 e5 *\n".to_string()]);
}

#[test]
fn test_load_pgn_plusieurs_parties() {
    let games = split_pgn_games(
        "[Event \"Test1\"]\n[Site \"?\"]\n\n1. e4 e5 *\n\n[Event \"Test2\"]\n[Site \"?\"]\n\n1. d4 d5 *\n",
    );
    assert_eq!(games.len(), 2);
    assert_eq!(games[0], "[Event \"Test1\"]\n[Site \"?\"]\n\n1. e4 e5 *\n");
    assert_eq!(games[1], "[Event \"Test2\"]\n[Site \"?\"]\n\n1. d4 d5 *\n");
}

#[test]
fn text_without_event_tag_has_no_game() {
    assert!(split_pgn_games("").is_empty());
    assert!(split_pgn_games("1. e4 e5 *").is_empty());
    // A leading piece without the tag is dropped; the next one is kept.
    let games = split_pgn_games("garbage\n[Event \"A\"]\n1. e4 *");
    assert_eq!(games, vec!["[Event \"A\"]\n1. e4 *".to_string()]);
}

#[test]
fn every_game_holds_an_event_tag() {
    let text = "[Event \"x\"]\n\n[Event \"y\"]\n[Event \"z\"]";
    let games = split_pgn_games(text);
    assert_eq!(games.len(), 3);
    assert!(games.iter().all(|g| g.contains("[Event ")));
}

#[test]
fn fallback_games_hold_event_tags() {
    let games = get_fallback_games();
    assert_eq!(games.len(), 2);
    assert!(games[0].starts_with("[Event \"Fallback Game 1\"]"));
    assert!(games[1].ends_with("10. Bg6+ Kd8 0-1"));
    assert!(games.iter().all(|g| g.contains("[Event ")));
}

#[test]
fn games_address() {
    assert_eq!(
        lichess_games_url("DrNykterstein", 3, None),
        "https://lichess.org/api/games/user/DrNykterstein?max=3"
    );
    assert_eq!(
        lichess_games_url("DrNykterstein", 500, Some("blitz")),
        "https://lichess.org/api/games/user/DrNykterstein?max=500&perfType=blitz"
    );
    assert_eq!(lichess_games_url("x", 0, None), "https://lichess.org/api/games/user/x?max=0");
}

#[test]
fn answers_by_status() {
    assert_eq!(status_action(200), StatusAction::ReadGames);
    assert_eq!(status_action(299), StatusAction::ReadGames);
    assert_eq!(status_action(404), StatusAction::PlayerNotFound);
    assert_eq!(status_action(429), StatusAction::UseFallback);
    assert_eq!(status_action(500), StatusAction::UseFallback);
    assert_eq!(status_action(301), StatusAction::UseFallback);
    assert_eq!(status_action(199), StatusAction::UseFallback);
}

#[test]
fn unknown_player_message() {
    assert_eq!(
        player_not_found_message("utilisateur_qui_nexiste_pas_xyz123"),
        "Joueur introuvable : utilisateur_qui_nexiste_pas_xyz123"
    );
}
