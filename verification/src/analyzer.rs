//! The decisions taken around the engine's analysis of a position.

use vstd::prelude::*;
use crate::text::{ws_tokens, split_ws, str_eq};
use crate::config::EvalBounds;
use crate::engine::{Evaluation, ScoredMove, centipawns};
use crate::profiler::ProfiledPosition;

verus! {

/// A position that passed the analysis: the engine's evaluation and
/// candidate moves at the validation depth, best first.  Its novelty score
/// follows from `opponent_count` and the novelty threshold.
#[derive(Debug, Clone, PartialEq)]
pub struct AnalyzedPosition {
    pub fen: String,
    pub opponent_count: u32,
    pub eval: Evaluation,
    pub best_move: String,
    pub candidate_moves: Vec<ScoredMove>,
}

/// Whether the side to move in `fen` is White: the second whitespace
/// token of the text is `w`.  Positions reach the analysis with the
/// opponent to move, hence the name.
pub open spec fn spec_is_opponent_white(fen: Seq<char>) -> bool {
    ws_tokens(fen).len() > 1 && ws_tokens(fen)[1] == "w"@
}

/// Whether the opponent (the side to move in `fen`) plays White.
pub fn is_opponent_white(fen: &str) -> (r: bool)
    ensures
        r == spec_is_opponent_white(fen@),
{
    let toks = split_ws(fen);
    proof {
        assert(toks@.len() == ws_tokens(fen@).len());
    }
    if toks.len() > 1 {
        proof {
            assert(toks@[1]@ == ws_tokens(fen@)[1]);
        }
        str_eq(toks[1].as_str(), "w")
    } else {
        false
    }
}


/// The user's evaluation (in hundredths of a pawn) is at least the bound
/// for the colour the user plays: Black when the opponent (to move) is
/// White, White otherwise.  `eval` is from the side to move.
pub open spec fn acceptable(eval: Evaluation, opponent_is_white: bool, bounds: EvalBounds) -> bool {
    let user_score = -centipawns(eval);
    if opponent_is_white {
        user_score >= bounds.black_min
    } else {
        user_score >= bounds.white_min
    }
}

/// An evaluation no better for the side to move than an acceptable one is
/// acceptable too.
pub proof fn lemma_acceptable_monotone(e1: Evaluation, e2: Evaluation, opponent_is_white: bool, bounds: EvalBounds)
    requires
        acceptable(e1, opponent_is_white, bounds),
        centipawns(e2) <= centipawns(e1),
    ensures
        acceptable(e2, opponent_is_white, bounds),
{
}

/// Whether the engine's evaluation leaves the user a position within the
/// bounds.
pub fn is_acceptable_eval(eval: &Evaluation, opponent_is_white: bool, bounds: &EvalBounds) -> (r: bool)
    ensures
        r == acceptable(*eval, opponent_is_white, *bounds),
{
    let user_score = 0 - eval.to_centipawns();
    if opponent_is_white {
        user_score >= bounds.black_min as i64
    } else {
        user_score >= bounds.white_min as i64
    }
}

/// Whether a position passes the quick analysis: the engine proposed a
/// move, and its best evaluation is acceptable for the user.
pub fn passes_filter(fen: &str, filter_moves: &Vec<ScoredMove>, bounds: &EvalBounds) -> (r: bool)
    ensures
        r == (filter_moves@.len() > 0 && acceptable(filter_moves@[0].eval, spec_is_opponent_white(fen@), *bounds)),
{
    if filter_moves.len() == 0 {
        return false;
    }
    let opponent_is_white = is_opponent_white(fen);
    is_acceptable_eval(&filter_moves[0].eval, opponent_is_white, bounds)
}

/// What the validation analysis of a kept position records: nothing when
/// the engine proposed no move; otherwise its first move and evaluation,
/// and all its candidate moves.
pub fn analyzed_position(pos: &ProfiledPosition, validate_moves: Vec<ScoredMove>) -> (r: Option<AnalyzedPosition>)
    ensures
        validate_moves@.len() == 0 ==> r.is_none(),
        validate_moves@.len() > 0 ==> (r matches Some(a) && {
            &&& a.fen@ == pos.fen@
            &&& a.opponent_count == pos.opponent_count
            &&& a.eval == validate_moves@[0].eval
            &&& a.best_move@ == validate_moves@[0].uci@
            &&& a.candidate_moves@ == validate_moves@
        }),
{
    if validate_moves.len() == 0 {
        return None;
    }
    let eval = validate_moves[0].eval;
    let best_move = validate_moves[0].uci.clone();
    Some(AnalyzedPosition {
        fen: pos.fen.clone(),
        opponent_count: pos.opponent_count,
        eval,
        best_move,
        candidate_moves: validate_moves,
    })
}

} // verus!
