//! Settings of a preparation run, and the three preset profiles.
//!
//! Pawn-valued settings (evaluation bounds, scoring weights) are held in
//! hundredths: `-50` stands for half a pawn against, `60` for a weight of
//! 0.60.

use vstd::prelude::*;
use vstd::string::StringExecFns;

verus! {

/// Lowest acceptable evaluation for the user, in hundredths of a pawn,
/// from the user's side, for each colour the user may play.  Evaluations
/// come in whole hundredths, so a bound that falls between two hundredths
/// acts as the next one up.
#[derive(Debug, Clone, Copy, PartialEq, Eq)]
pub struct EvalBounds {
    pub white_min: i32,
    pub black_min: i32,
}

impl Default for EvalBounds {
    fn default() -> (r: Self)
        ensures
            r.white_min == 0 && r.black_min == -50,
    {
        EvalBounds { white_min: 0, black_min: -50 }
    }
}

/// Weights of the two scores in the final score, in hundredths.
#[derive(Debug, Clone, Copy, PartialEq, Eq)]
pub struct ScoringWeights {
    pub novelty: i32,
    pub complexity: i32,
}

impl Default for ScoringWeights {
    fn default() -> (r: Self)
        ensures
            r.novelty == 60 && r.complexity == 40,
    {
        ScoringWeights { novelty: 60, complexity: 40 }
    }
}

#[derive(Debug, Clone, Copy, PartialEq, Eq)]
pub struct Scoring {
    pub weights: ScoringWeights,
}

impl Default for Scoring {
    fn default() -> (r: Self)
        ensures
            r.weights.novelty == 60 && r.weights.complexity == 40,
    {
        Scoring { weights: ScoringWeights::default() }
    }
}

/// Ply from which a position may count as a novelty, when a settings file
/// leaves it out.
pub fn default_min_novelty_ply() -> (r: u32)
    ensures
        r == 6,
{
    6
}

/// Opponent games required at the parent of a novelty, when a settings
/// file leaves it out.
pub fn default_min_parent_count() -> (r: u32)
    ensures
        r == 3,
{
    3
}

#[derive(Debug, Clone, PartialEq)]
pub struct Config {
    pub stockfish_depth_filter: u8,
    pub stockfish_depth_validate: u8,
    pub max_search_depth: u8,
    pub novelty_threshold: u32,
    pub opponent_games_limit: u32,
    pub max_candidates: u32,
    pub output_dir: String,
    pub analytics_enabled: bool,
    pub eval_bounds: EvalBounds,
    pub scoring: Scoring,
    pub min_novelty_ply: u32,
    pub min_parent_count: u32,
}

/// The settings that the profiles share: output directory `./output`,
/// analytics off, bounds 0 and -0.50, weights 0.60 and 0.40.
pub open spec fn shared_settings(c: Config) -> bool {
    &&& c.output_dir@ == "./output"@
    &&& !c.analytics_enabled
    &&& c.eval_bounds.white_min == 0
    &&& c.eval_bounds.black_min == -50
    &&& c.scoring.weights.novelty == 60
    &&& c.scoring.weights.complexity == 40
}

/// `c` holds the given values and the shared settings.
pub open spec fn has_settings(
    c: Config,
    depth_filter: u8,
    depth_validate: u8,
    max_search_depth: u8,
    novelty_threshold: u32,
    games_limit: u32,
    max_candidates: u32,
    min_novelty_ply: u32,
    min_parent_count: u32,
) -> bool {
    &&& shared_settings(c)
    &&& c.stockfish_depth_filter == depth_filter
    &&& c.stockfish_depth_validate == depth_validate
    &&& c.max_search_depth == max_search_depth
    &&& c.novelty_threshold == novelty_threshold
    &&& c.opponent_games_limit == games_limit
    &&& c.max_candidates == max_candidates
    &&& c.min_novelty_ply == min_novelty_ply
    &&& c.min_parent_count == min_parent_count
}

/// The settings of each profile.
pub open spec fn profile_settings(p: Profile, c: Config) -> bool {
    match p {
        Profile::Quick => has_settings(c, 10, 15, 10, 10, 100, 10, 6, 3),
        Profile::Standard => has_settings(c, 15, 22, 15, 5, 500, 20, 6, 3),
        Profile::Deep => has_settings(c, 18, 28, 20, 3, 1000, 30, 8, 5),
    }
}

/// The settings of each profile, value by value (depths of the quick and
/// validating analyses, depth of the walk, novelty threshold, number of
/// games, number of candidates, first novelty ply, minimum parent count),
/// with the output directory `./output`, analytics off, evaluation bounds
/// 0 and -0.50 pawn and weights 0.60 and 0.40.
pub proof fn lemma_profile_values(p: Profile, c: Config)
    requires
        profile_settings(p, c),
    ensures
        c.output_dir@ == "./output"@,
        !c.analytics_enabled,
        c.eval_bounds.white_min == 0,
        c.eval_bounds.black_min == -50,
        c.scoring.weights.novelty == 60,
        c.scoring.weights.complexity == 40,
        p == Profile::Quick ==> c.stockfish_depth_filter == 10 && c.stockfish_depth_validate == 15 && c.max_search_depth == 10
            && c.novelty_threshold == 10 && c.opponent_games_limit == 100 && c.max_candidates == 10 && c.min_novelty_ply == 6
            && c.min_parent_count == 3,
        p == Profile::Standard ==> c.stockfish_depth_filter == 15 && c.stockfish_depth_validate == 22 && c.max_search_depth == 15
            && c.novelty_threshold == 5 && c.opponent_games_limit == 500 && c.max_candidates == 20 && c.min_novelty_ply == 6
            && c.min_parent_count == 3,
        p == Profile::Deep ==> c.stockfish_depth_filter == 18 && c.stockfish_depth_validate == 28 && c.max_search_depth == 20
            && c.novelty_threshold == 3 && c.opponent_games_limit == 1000 && c.max_candidates == 30 && c.min_novelty_ply == 8
            && c.min_parent_count == 5,
{
}

impl Default for Config {
    fn default() -> (c: Self)
        ensures
            profile_settings(Profile::Standard, c),
            c.stockfish_depth_filter == 15,
            c.stockfish_depth_validate == 22,
            c.max_search_depth == 15,
            c.novelty_threshold == 5,
            c.opponent_games_limit == 500,
            c.max_candidates == 20,
            c.min_novelty_ply == 6,
            c.min_parent_count == 3,
    {
        Config {
            stockfish_depth_filter: 15,
            stockfish_depth_validate: 22,
            max_search_depth: 15,
            novelty_threshold: 5,
            opponent_games_limit: 500,
            max_candidates: 20,
            output_dir: String::from_str("./output"),
            analytics_enabled: false,
            eval_bounds: EvalBounds::default(),
            scoring: Scoring::default(),
            min_novelty_ply: 6,
            min_parent_count: 3,
        }
    }
}

impl Config {
    /// The settings of a profile; `Standard` is the default.
    pub fn from_profile(profile: Profile) -> (c: Self)
        ensures
            profile_settings(profile, c),
    {
        match profile {
            Profile::Quick => Config {
                stockfish_depth_filter: 10,
                stockfish_depth_validate: 15,
                max_search_depth: 10,
                novelty_threshold: 10,
                opponent_games_limit: 100,
                max_candidates: 10,
                output_dir: String::from_str("./output"),
                analytics_enabled: false,
                eval_bounds: EvalBounds { white_min: 0, black_min: -50 },
                scoring: Scoring { weights: ScoringWeights { novelty: 60, complexity: 40 } },
                min_novelty_ply: 6,
                min_parent_count: 3,
            },
            Profile::Standard => Config::default(),
            Profile::Deep => Config {
                stockfish_depth_filter: 18,
                stockfish_depth_validate: 28,
                max_search_depth: 20,
                novelty_threshold: 3,
                opponent_games_limit: 1000,
                max_candidates: 30,
                output_dir: String::from_str("./output"),
                analytics_enabled: false,
                eval_bounds: EvalBounds { white_min: 0, black_min: -50 },
                scoring: Scoring { weights: ScoringWeights { novelty: 60, complexity: 40 } },
                min_novelty_ply: 8,
                min_parent_count: 5,
            },
        }
    }
}

/// A preset of the search and analysis settings.
#[derive(Debug, Clone, Copy, PartialEq, Eq)]
pub enum Profile {
    Quick,
    Standard,
    Deep,
}

/// The profile that a name selects, if any.
pub open spec fn profile_named(s: Seq<char>) -> Option<Profile> {
    if s == "quick"@ {
        Some(Profile::Quick)
    } else if s == "standard"@ {
        Some(Profile::Standard)
    } else if s == "deep"@ {
        Some(Profile::Deep)
    } else {
        None
    }
}

impl Profile {
    /// Reads a profile name; any other text gives the message
    /// `Profil inconnu : <text>`.
    pub fn parse(s: &str) -> (r: Result<Profile, String>)
        ensures
            profile_named(s@) matches Some(p) ==> r == Ok::<Profile, String>(p),
            profile_named(s@) is None ==> (r matches Err(m) && m@ == "Profil inconnu : "@ + s@),
    {
        if crate::text::str_eq(s, "quick") {
            Ok(Profile::Quick)
        } else if crate::text::str_eq(s, "standard") {
            Ok(Profile::Standard)
        } else if crate::text::str_eq(s, "deep") {
            Ok(Profile::Deep)
        } else {
            let mut m = String::from_str("Profil inconnu : ");
            m.append(s);
            Err(m)
        }
    }
}

impl std::str::FromStr for Profile {
    type Err = String;

    fn from_str(s: &str) -> (r: Result<Self, Self::Err>)
        ensures
            profile_named(s@) matches Some(p) ==> r == Ok::<Profile, String>(p),
            profile_named(s@) is None ==> (r matches Err(m) && m@ == "Profil inconnu : "@ + s@),
    {
        Profile::parse(s)
    }
}

} // verus!
