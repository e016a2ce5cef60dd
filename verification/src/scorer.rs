//! The final ranking of the analysed positions.
//!
//! Scores are on a scale of 0 to 10.  The complexity score falls from 10,
//! when the engine's two best moves are equally good, to 0, when they are
//! two pawns or more apart; it is held in hundredths.  The novelty score of
//! a position is `10 * (1 - c / (3 t))` for an opponent count `c` and a
//! novelty threshold `t` (0 when `t` is 0); it is held exactly, in units of
//! `1 / (300 t)` of a point.  The final score, the weighted sum of the two,
//! is held as an integer proportional to it, so that the ranking is exact.

use vstd::prelude::*;
use crate::analyzer::AnalyzedPosition;
use crate::annotator::clone_strings;
use crate::config::ScoringWeights;
use crate::engine::{ScoredMove, centipawns};
use crate::reachability::texts;
use crate::text::{lex_lt, str_lt, lemma_lex_total, lemma_lex_trans, lemma_lex_asym};

verus! {

/// The distance between two integers.
pub open spec fn gap(a: int, b: int) -> int {
    if a >= b {
        a - b
    } else {
        b - a
    }
}

/// The complexity score, in hundredths: `10 * (1 - min(g / 2, 1))` points
/// for a gap of `g` pawns between the two best moves; 0 with fewer than two
/// moves.
pub open spec fn complexity_of(moves: Seq<ScoredMove>) -> int {
    if moves.len() < 2 {
        0
    } else {
        let g = gap(centipawns(moves[0].eval), centipawns(moves[1].eval));
        if g >= 200 {
            0
        } else {
            1000 - 5 * g
        }
    }
}

/// The complexity law: with at least two candidate moves the score is
/// `1000 - 5 g` hundredths, and 0 from two pawns on, where `g` is the
/// distance in centipawns between the best and the second-best candidate;
/// the order of the two does not matter, and the candidates after the
/// second play no part.  With fewer than two it is 0.
pub proof fn lemma_complexity_from_two_best(moves: Seq<ScoredMove>, others: Seq<ScoredMove>)
    ensures
        moves.len() < 2 ==> complexity_of(moves) == 0,
        moves.len() >= 2 ==> ({
            let a = centipawns(moves[0].eval);
            let b = centipawns(moves[1].eval);
            let g = if a >= b { a - b } else { b - a };
            &&& complexity_of(moves) == if g >= 200 { 0 } else { 1000 - 5 * g }
            &&& complexity_of(moves) == complexity_of(moves.take(2) + others)
            &&& complexity_of(moves) == complexity_of(seq![moves[1], moves[0]])
            &&& 0 <= complexity_of(moves) <= 1000
            &&& (a == b ==> complexity_of(moves) == 1000)
        }),
{
    if moves.len() >= 2 {
        let t = moves.take(2) + others;
        assert(t[0] == moves[0] && t[1] == moves[1]);
        assert(seq![moves[1], moves[0]][0] == moves[1]);
        assert(seq![moves[1], moves[0]][1] == moves[0]);
    }
}

/// The novelty score in units of `1 / (300 t)` of a point: `1000 (3 t - c)`,
/// and 0 when the threshold `t` is 0.
pub open spec fn novelty_units(t: u32, c: u32) -> int {
    if t == 0 {
        0
    } else {
        1000 * (3 * t - c)
    }
}

/// Against a given threshold, the novelty score falls as the count rises.
pub proof fn lemma_novelty_falls_as_count_rises(t: u32, c1: u32, c2: u32)
    requires
        t > 0,
        c1 < c2,
    ensures
        novelty_units(t, c1) > novelty_units(t, c2),
{
}

/// How many units of the novelty score make a hundredth of a point.
pub open spec fn unit_scale(t: u32) -> int {
    if t == 0 {
        3
    } else {
        3 * t
    }
}

/// The final score, scaled by `30000 t` (by 30000 when `t` is 0): the
/// weights, in hundredths, applied to the novelty and complexity scores.
pub open spec fn final_key(w: ScoringWeights, t: u32, p: AnalyzedPosition) -> int {
    w.novelty * novelty_units(t, p.opponent_count) + w.complexity * (unit_scale(t) * complexity_of(p.candidate_moves@))
}

/// Scores a position by how rarely the opponent met it.
pub struct NoveltyScorer {
    /// The novelty threshold the counts are measured against.
    pub novelty_threshold: u32,
}

/// Scores a position by how close the engine's two best moves are.
pub struct ComplexityScorer;

impl NoveltyScorer {
    /// The novelty score of `position`, in units of `1 / (300 t)` of a point.
    pub fn score(&self, position: &AnalyzedPosition) -> (r: i64)
        ensures
            r == novelty_units(self.novelty_threshold, position.opponent_count),
    {
        if self.novelty_threshold == 0 {
            0
        } else {
            1000 * (3 * (self.novelty_threshold as i64) - position.opponent_count as i64)
        }
    }
}

impl ComplexityScorer {
    /// The complexity score of `position`, in hundredths of a point.
    pub fn score(&self, position: &AnalyzedPosition) -> (r: i64)
        ensures
            r == complexity_of(position.candidate_moves@),
            0 <= r <= 1000,
    {
        if position.candidate_moves.len() < 2 {
            return 0;
        }
        let e1 = position.candidate_moves[0].eval.to_centipawns();
        let e2 = position.candidate_moves[1].eval.to_centipawns();
        let g = if e1 >= e2 {
            e1 - e2
        } else {
            e2 - e1
        };
        if g >= 200 {
            0
        } else {
            1000 - 5 * g
        }
    }
}

/// A ranked line: the position, the engine's best move and variation, and
/// the three scores.
#[derive(Debug, Clone, PartialEq)]
pub struct ScoredLine {
    pub fen: String,
    pub best_move: String,
    /// In units of `1 / (300 t)` of a point.
    pub novelty_score: i64,
    /// In hundredths of a point.
    pub complexity_score: i64,
    /// Proportional to the final score (see [`final_key`]).
    pub final_score: i128,
    pub pv: Vec<String>,
}

/// `a` ranks strictly before `b`: a higher final score, or the same and a
/// text that comes first.
pub open spec fn ranks_before(a: ScoredLine, b: ScoredLine) -> bool {
    a.final_score > b.final_score || (a.final_score == b.final_score && lex_lt(a.fen@, b.fen@))
}

/// `l` is the line of position `p`.
pub open spec fn line_of(l: ScoredLine, p: AnalyzedPosition, w: ScoringWeights, t: u32) -> bool {
    &&& l.fen@ == p.fen@
    &&& l.best_move@ == p.best_move@
    &&& l.novelty_score == novelty_units(t, p.opponent_count)
    &&& l.complexity_score == complexity_of(p.candidate_moves@)
    &&& l.final_score == final_key(w, t, p)
    &&& texts(l.pv@) == if p.candidate_moves@.len() == 0 {
        Seq::<Seq<char>>::empty()
    } else {
        texts(p.candidate_moves@[0].pv@)
    }
}

/// `perm` maps each of `n` places to a distinct one of `n` places.
pub open spec fn is_permutation(perm: Seq<int>, n: nat) -> bool {
    &&& perm.len() == n
    &&& forall|k: int| 0 <= k < n ==> 0 <= #[trigger] perm[k] < n
    &&& perm.no_duplicates()
}

/// `r` holds the lines of `ps`, each once: line `k` is that of position
/// `perm[k]`, and lines that tie keep the order of their positions.
pub open spec fn ranked_lines(
    r: Seq<ScoredLine>,
    ps: Seq<AnalyzedPosition>,
    w: ScoringWeights,
    t: u32,
    perm: Seq<int>,
) -> bool {
    &&& is_permutation(perm, ps.len())
    &&& r.len() == ps.len()
    &&& forall|k: int| 0 <= k < r.len() ==> line_of(#[trigger] r[k], ps[perm[k]], w, t)
    &&& forall|a: int, b: int|
        0 <= a < b < r.len() && !ranks_before(#[trigger] r[a], #[trigger] r[b]) ==> perm[a] < perm[b]
}

proof fn lemma_mul_bound(a: int, b: int, x: int, y: int)
    requires
        -x <= a <= x,
        -y <= b <= y,
    ensures
        -(x * y) <= a * b <= x * y,
{
    assert(-(x * y) <= a * b <= x * y) by (nonlinear_arith)
        requires
            -x <= a <= x,
            -y <= b <= y,
    ;
}

/// Ranks the analysed positions by their final score.
pub struct Scorer {
    pub weights: ScoringWeights,
    /// The novelty threshold the novelty scores are measured against.
    pub novelty_threshold: u32,
}

impl Scorer {
    pub fn new(weights: ScoringWeights, novelty_threshold: u32) -> (r: Self)
        ensures
            r.weights == weights,
            r.novelty_threshold == novelty_threshold,
    {
        Self { weights, novelty_threshold }
    }

    /// The line of one position.
    fn line(&self, pos: &AnalyzedPosition) -> (l: ScoredLine)
        ensures
            line_of(l, *pos, self.weights, self.novelty_threshold),
    {
        let novelty = NoveltyScorer { novelty_threshold: self.novelty_threshold }.score(pos);
        let complexity = ComplexityScorer.score(pos);
        let t = self.novelty_threshold;
        let scale: i128 = if t == 0 {
            3
        } else {
            3 * (t as i128)
        };
        proof {
            lemma_mul_bound(self.weights.novelty as int, novelty as int, 0x8000_0000, 0x1000_0000_0000);
            lemma_mul_bound(scale as int, complexity as int, 0x4_0000_0000, 1000);
            lemma_mul_bound(self.weights.complexity as int, scale * complexity, 0x8000_0000, 0x4_0000_0000int * 1000int);
        }
        let final_score = (self.weights.novelty as i128) * (novelty as i128)
            + (self.weights.complexity as i128) * (scale * (complexity as i128));
        let pv = if pos.candidate_moves.len() == 0 {
            Vec::new()
        } else {
            clone_strings(&pos.candidate_moves[0].pv)
        };
        proof {
            if pos.candidate_moves@.len() == 0 {
                assert(texts(pv@) =~= Seq::<Seq<char>>::empty());
            }
        }
        ScoredLine {
            fen: pos.fen.clone(),
            best_move: pos.best_move.clone(),
            novelty_score: novelty,
            complexity_score: complexity,
            final_score,
            pv,
        }
    }

    /// The lines of `analyzed_positions`, best final score first, then in
    /// code-point order of the text; lines that tie keep their order.
    pub fn score(&self, analyzed_positions: &Vec<AnalyzedPosition>) -> (r: Vec<ScoredLine>)
        ensures
            exists|perm: Seq<int>| ranked_lines(r@, analyzed_positions@, self.weights, self.novelty_threshold, perm),
            forall|a: int, b: int| 0 <= a < b < r@.len() ==> !ranks_before(#[trigger] r@[b], #[trigger] r@[a]),
    {
        let ghost w = self.weights;
        let ghost t = self.novelty_threshold;
        let ghost ps = analyzed_positions@;
        let mut lines: Vec<ScoredLine> = Vec::new();
        let ghost mut perm: Seq<int> = Seq::empty();
        let mut i: usize = 0;
        while i < analyzed_positions.len()
            invariant
                i <= ps.len(),
                ps == analyzed_positions@,
                w == self.weights,
                t == self.novelty_threshold,
                ranked_lines(lines@, ps.take(i as int), w, t, perm),
                forall|a: int, b: int| 0 <= a < b < lines@.len() ==> !ranks_before(#[trigger] lines@[b], #[trigger] lines@[a]),
            decreases ps.len() - i,
        {
            let item = self.line(&analyzed_positions[i]);
            // The first line that the new one ranks strictly before.
            let mut j: usize = 0;
            while j < lines.len() && !(item.final_score > lines[j].final_score || (item.final_score == lines[j].final_score && str_lt(item.fen.as_str(), lines[j].fen.as_str())))
                invariant
                    j <= lines@.len(),
                    forall|k: int| 0 <= k < j ==> !ranks_before(item, #[trigger] lines@[k]),
                decreases lines@.len() - j,
            {
                j = j + 1;
            }
            let ghost before = lines@;
            let ghost old_perm = perm;
            proof {
                if j < before.len() {
                    assert forall|k: int| j <= k < before.len() implies ranks_before(item, #[trigger] before[k]) by {
                        if k > j {
                            assert(!ranks_before(before[k], before[j as int]));
                            if item.final_score == before[j as int].final_score && before[j as int].final_score == before[k].final_score {
                                if before[j as int].fen@ != before[k].fen@ {
                                    lemma_lex_total(before[j as int].fen@, before[k].fen@);
                                    lemma_lex_trans(item.fen@, before[j as int].fen@, before[k].fen@);
                                }
                            }
                        }
                    }
                }
            }
            lines.insert(j, item);
            proof {
                perm = old_perm.insert(j as int, i as int);
                let pi = ps.take(i as int + 1);
                assert(pi.len() == i + 1);
                assert forall|k: int| 0 <= k < pi.len() implies 0 <= #[trigger] perm[k] < pi.len() by {
                    if k < j {
                        assert(perm[k] == old_perm[k]);
                    } else if k > j {
                        assert(perm[k] == old_perm[k - 1]);
                    }
                }
                assert(perm.no_duplicates()) by {
                    assert forall|a: int, b: int| 0 <= a < perm.len() && 0 <= b < perm.len() && a != b implies perm[a] != perm[b] by {
                        if a != j && b != j {
                            let oa = if a < j { a } else { a - 1 };
                            let ob = if b < j { b } else { b - 1 };
                            assert(perm[a] == old_perm[oa]);
                            assert(perm[b] == old_perm[ob]);
                        } else if a == j {
                            let ob = if b < j { b } else { b - 1 };
                            assert(perm[b] == old_perm[ob]);
                            assert(old_perm[ob] < i);
                        } else {
                            let oa = if a < j { a } else { a - 1 };
                            assert(perm[a] == old_perm[oa]);
                            assert(old_perm[oa] < i);
                        }
                    }
                }
                assert forall|k: int| 0 <= k < lines@.len() implies line_of(#[trigger] lines@[k], pi[perm[k]], w, t) by {
                    if k < j {
                        assert(lines@[k] == before[k]);
                        assert(line_of(before[k], ps.take(i as int)[old_perm[k]], w, t));
                    } else if k > j {
                        assert(lines@[k] == before[k - 1]);
                        assert(line_of(before[k - 1], ps.take(i as int)[old_perm[k - 1]], w, t));
                    } else {
                        assert(pi[i as int] == ps[i as int]);
                    }
                }
                assert forall|a: int, b: int| 0 <= a < b < lines@.len() implies !ranks_before(#[trigger] lines@[b], #[trigger] lines@[a]) by {
                    if b < j {
                        assert(lines@[a] == before[a] && lines@[b] == before[b]);
                    } else if a < j && b == j {
                        assert(lines@[a] == before[a]);
                        assert(!ranks_before(item, before[a]));
                        if item.final_score == before[a].final_score && lex_lt(item.fen@, before[a].fen@) {
                        }
                    } else if a < j {
                        assert(lines@[a] == before[a] && lines@[b] == before[b - 1]);
                        assert(!ranks_before(before[b - 1], before[a]));
                    } else if a == j {
                        assert(lines@[b] == before[b - 1]);
                        assert(ranks_before(item, before[b - 1]));
                        if item.final_score == before[b - 1].final_score {
                            lemma_lex_asym(item.fen@, before[b - 1].fen@);
                        }
                    } else {
                        assert(lines@[a] == before[a - 1] && lines@[b] == before[b - 1]);
                    }
                }
                assert forall|a: int, b: int|
                    0 <= a < b < lines@.len() && !ranks_before(#[trigger] lines@[a], #[trigger] lines@[b]) implies perm[a] < perm[b] by {
                    if b < j {
                        assert(lines@[a] == before[a] && lines@[b] == before[b]);
                        assert(perm[a] == old_perm[a] && perm[b] == old_perm[b]);
                    } else if a < j && b == j {
                        assert(perm[a] == old_perm[a]);
                        assert(old_perm[a] < i);
                    } else if a < j {
                        assert(lines@[a] == before[a] && lines@[b] == before[b - 1]);
                        assert(perm[a] == old_perm[a] && perm[b] == old_perm[b - 1]);
                    } else if a == j {
                        assert(lines@[b] == before[b - 1]);
                        assert(ranks_before(item, before[b - 1]));
                    } else {
                        assert(lines@[a] == before[a - 1] && lines@[b] == before[b - 1]);
                        assert(perm[a] == old_perm[a - 1] && perm[b] == old_perm[b - 1]);
                    }
                }
            }
            i = i + 1;
        }
        proof {
            assert(ps.take(ps.len() as int) =~= ps);
        }
        lines
    }
}

} // verus!
