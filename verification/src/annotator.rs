//! The preparation file: one PGN game per candidate line, from the
//! initial position to the novelty, with the engine's continuation.

use vstd::prelude::*;
use vstd::hash_map::StringHashMap;
use vstd::string::StringExecFns;
use crate::analyzer::{is_opponent_white, spec_is_opponent_white};
use crate::chess::{play_uci, position_text_ok, is_position_text, uci_successor};
use crate::lines::{chain_ends, has_line, lemma_chain_unique, line_moves, line_to_position};
use crate::scorer::ScoredLine;
use crate::reachability::texts;
use crate::text::{decimal, usize_to_decimal, trim_end_chars, trim_end_ws, chars_of, string_from_chars, is_numeral, digits_value, lemma_decimal_value};

verus! {

/// The SAN moves of the UCI moves `pv` played from `pos`, up to the first
/// one that cannot be played.
pub open spec fn san_line(pos: Seq<char>, pv: Seq<Seq<char>>) -> Seq<Seq<char>>
    decreases pv.len(),
{
    if pv.len() == 0 {
        Seq::empty()
    } else {
        match uci_successor(pos, pv[0]) {
            Some((next, san)) => seq![san] + san_line(next, pv.drop_first()),
            None => Seq::empty(),
        }
    }
}

/// The SAN line is never longer than the variation it comes from.
pub proof fn lemma_san_line_no_longer(pos: Seq<char>, pv: Seq<Seq<char>>)
    ensures
        san_line(pos, pv).len() <= pv.len(),
    decreases pv.len(),
{
    if pv.len() > 0 {
        match uci_successor(pos, pv[0]) {
            Some((next, san)) => {
                lemma_san_line_no_longer(next, pv.drop_first());
            },
            None => {},
        }
    }
}

/// What `uci_pv_to_san` gives: the variation unchanged when `fen` is not a
/// position, else its moves in SAN up to the first that cannot be played.
pub open spec fn pv_in_san(fen: Seq<char>, pv: Seq<Seq<char>>) -> Seq<Seq<char>> {
    if is_position_text(fen) {
        san_line(fen, pv)
    } else {
        pv
    }
}

/// A copy of a list of strings.
pub(crate) fn clone_strings(v: &Vec<String>) -> (r: Vec<String>)
    ensures
        texts(r@) == texts(v@),
{
    let mut r: Vec<String> = Vec::new();
    let mut k: usize = 0;
    while k < v.len()
        invariant
            k <= v@.len(),
            texts(r@) == texts(v@).take(k as int),
        decreases v@.len() - k,
    {
        let ghost before = r@;
        r.push(v[k].clone());
        proof {
            assert(texts(r@) =~= texts(before).push(v@[k as int]@));
            assert(texts(v@).take(k + 1) =~= texts(v@).take(k as int).push(v@[k as int]@));
        }
        k = k + 1;
    }
    proof {
        assert(texts(v@).take(v@.len() as int) =~= texts(v@));
    }
    r
}

/// The engine's variation `pv` (UCI moves) from `fen`, in SAN.
pub fn uci_pv_to_san(fen: &str, pv: &Vec<String>) -> (r: Vec<String>)
    ensures
        texts(r@) == pv_in_san(fen@, texts(pv@)),
{
    if !position_text_ok(fen) {
        return clone_strings(pv);
    }
    let ghost all = texts(pv@);
    let mut san_moves: Vec<String> = Vec::new();
    let mut pos = fen.to_owned();
    let mut i: usize = 0;
    proof {
        assert(all.skip(0) =~= all);
        assert(texts(san_moves@) =~= Seq::<Seq<char>>::empty());
    }
    while i < pv.len()
        invariant
            i <= pv@.len(),
            all == texts(pv@),
            is_position_text(fen@),
            san_line(fen@, all) == texts(san_moves@) + san_line(pos@, all.skip(i as int)),
        decreases pv@.len() - i,
    {
        assert(all.skip(i as int)[0] == pv@[i as int]@);
        match play_uci(pos.as_str(), pv[i].as_str()) {
            Some((next, san)) => {
                let ghost before = san_moves@;
                proof {
                    assert(all.skip(i as int).drop_first() =~= all.skip(i + 1));
                }
                san_moves.push(san);
                proof {
                    assert(texts(san_moves@) =~= texts(before).push(san@));
                    assert(texts(before) + (seq![san@] + san_line(next@, all.skip(i + 1))) =~= texts(before).push(san@) + san_line(next@, all.skip(i + 1)));
                }
                pos = next;
                i = i + 1;
            },
            None => {
                proof {
                    assert(uci_successor(pos@, all.skip(i as int)[0]) is None);
                    assert(san_line(pos@, all.skip(i as int)) == Seq::<Seq<char>>::empty());
                    assert(texts(san_moves@) + Seq::<Seq<char>>::empty() =~= texts(san_moves@));
                }
                return san_moves;
            },
        }
    }
    proof {
        assert(all.skip(i as int).len() == 0);
        assert(texts(san_moves@) + Seq::<Seq<char>>::empty() =~= texts(san_moves@));
    }
    san_moves
}

/// The text of move `i` (counting from 0) of a game: White's moves carry
/// the move number.
pub open spec fn move_piece(i: nat, mv: Seq<char>) -> Seq<char> {
    if i % 2 == 0 {
        decimal(i / 2 + 1) + ". "@ + mv + " "@
    } else {
        mv + " "@
    }
}

/// The numbering law: White's move at index `i` (even) is written after
/// the decimal numeral, without a leading zero, of `i / 2 + 1`, a dot and a
/// space; Black's move stands alone; each is followed by a space.
pub proof fn lemma_move_numbering(i: nat, mv: Seq<char>)
    ensures
        i % 2 == 0 ==> exists|d: Seq<char>| {
            &&& is_numeral(d)
            &&& digits_value(d) == i / 2 + 1
            &&& (d.len() == 1 || d[0] != '0')
            &&& #[trigger] move_piece(i, mv) == d + ". "@ + mv + " "@
        },
        i % 2 == 1 ==> move_piece(i, mv) == mv + " "@,
{
    if i % 2 == 0 {
        lemma_decimal_value(i / 2 + 1);
        let d = decimal(i / 2 + 1);
        assert(move_piece(i, mv) == d + ". "@ + mv + " "@);
    }
}

/// The text of the first `k` moves of `moves`, with `comment` after the
/// move at index `mark`.
pub open spec fn moves_text(moves: Seq<Seq<char>>, mark: int, comment: Seq<char>, k: nat) -> Seq<char>
    decreases k,
{
    if k == 0 {
        Seq::empty()
    } else {
        let i = (k - 1) as nat;
        moves_text(moves, mark, comment, i) + move_piece(i, moves[i as int]) + (if i == mark {
            comment
        } else {
            Seq::<char>::empty()
        })
    }
}

/// Appends the text of `moves` (with `comment` after the move at
/// `mark`) to `out`.
fn push_moves_text(out: &mut String, moves: &Vec<String>, mark: usize, comment: &str)
    ensures
        final(out)@ == old(out)@ + moves_text(texts(moves@), mark as int, comment@, moves@.len() as nat),
{
    let ghost start = out@;
    let mut i: usize = 0;
    while i < moves.len()
        invariant
            i <= moves@.len(),
            out@ == start + moves_text(texts(moves@), mark as int, comment@, i as nat),
        decreases moves@.len() - i,
    {
        let ghost before = out@;
        if i % 2 == 0 {
            let num = usize_to_decimal(i / 2 + 1);
            out.append(num.as_str());
            out.append(". ");
            out.append(moves[i].as_str());
            out.append(" ");
        } else {
            out.append(moves[i].as_str());
            out.append(" ");
        }
        if i == mark {
            out.append(comment);
        }
        proof {
            assert(texts(moves@)[i as int] == moves@[i as int]@);
            let piece = move_piece(i as nat, moves@[i as int]@);
            let extra = if i == mark { comment@ } else { Seq::<char>::empty() };
            if i % 2 == 0 {
                assert(((i / 2 + 1) as nat) == ((i as nat) / 2 + 1));
            }
            assert(out@ =~= before + piece + extra);
            assert(moves_text(texts(moves@), mark as int, comment@, (i + 1) as nat) == moves_text(texts(moves@), mark as int, comment@, i as nat) + piece + extra);
        }
        i = i + 1;
    }
}

/// The moves as PGN movetext: `1. e4 e5 2. Nf3`.
pub fn format_moves_as_pgn(moves: &Vec<String>) -> (r: String)
    ensures
        r@ == trim_end_ws(moves_text(texts(moves@), -1, Seq::empty(), moves@.len() as nat)),
{
    let mut text = String::new();
    let len = moves.len();
    push_moves_text(&mut text, moves, usize::MAX, "");
    proof {
        assert(moves_text(texts(moves@), usize::MAX as int, ""@, len as nat) == moves_text(texts(moves@), -1, Seq::empty(), len as nat)) by {
            lemma_moves_text_unmarked(texts(moves@), usize::MAX as int, -1, ""@, Seq::empty(), len as nat);
        }
    }
    let cs = chars_of(text.as_str());
    let t = trim_end_chars(&cs);
    string_from_chars(t.as_slice())
}

/// Two marks that no move reaches give the same text.
proof fn lemma_moves_text_unmarked(moves: Seq<Seq<char>>, m1: int, m2: int, c1: Seq<char>, c2: Seq<char>, k: nat)
    requires
        m1 >= k,
        m2 < 0,
    ensures
        moves_text(moves, m1, c1, k) == moves_text(moves, m2, c2, k),
    decreases k,
{
    if k > 0 {
        lemma_moves_text_unmarked(moves, m1, m2, c1, c2, (k - 1) as nat);
    }
}

/// Writes the candidate lines of a preparation as PGN games.
pub struct BasicAnnotator {
    /// The opponent's name, for the game headers.
    pub opponent: String,
    /// The parent entries of the positions, which give the line to each.
    pub parents: StringHashMap<(String, String)>,
}

/// The comment placed after the novelty: the final, novelty and complexity
/// scores.
pub open spec fn score_comment(score: Seq<char>, novelty: Seq<char>, complexity: Seq<char>) -> Seq<char> {
    "{CP: "@ + score + " (N: "@ + novelty + ", C: "@ + complexity + ")} "@
}

/// The headers of candidate game number `number`.
pub open spec fn game_headers(
    opponent: Seq<char>,
    number: nat,
    opponent_is_white: bool,
    score: Seq<char>,
    novelty: Seq<char>,
    complexity: Seq<char>,
) -> Seq<char> {
    let white = if opponent_is_white { opponent } else { "User"@ };
    let black = if opponent_is_white { "User"@ } else { opponent };
    "[Event \"Prep vs "@ + opponent + " - Candidate #"@ + decimal(number) + "\"]\n"@ + "[Site \"chess-prep\"]\n"@
        + "[Date \"2026.06.26\"]\n"@ + "[White \""@ + white + "\"]\n"@ + "[Black \""@ + black + "\"]\n"@
        + "[Result \"*\"]\n"@ + "[Score \""@ + score + "\"]\n"@ + "[Novelty \""@ + novelty + "\"]\n"@
        + "[Complexity \""@ + complexity + "\"]\n"@ + "\n"@
}

impl BasicAnnotator {
    /// The PGN game of candidate number `index + 1`, whose novelty leads to
    /// `fen`: the line to `fen` through the parent entries, then the
    /// engine's variation in SAN (or the best move, when none of it can be
    /// played), with the score comment after the novelty move, and the
    /// scores already written as text.
    pub fn annotate_line(
        &self,
        index: usize,
        fen: &str,
        pv: &Vec<String>,
        best_move: &str,
        score: &str,
        novelty: &str,
        complexity: &str,
    ) -> (r: String)
        requires
            index < usize::MAX,
            exists|n: nat| chain_ends(self.parents@, fen@, n),
        ensures
            r@ == line_game(self.opponent@, self.parents@, (index + 1) as nat, fen@, texts(pv@), best_move@, score@, novelty@, complexity@),
    {
        let path = line_to_position(&self.parents, fen);
        let ghost n = choose|n: nat| chain_ends(self.parents@, fen@, n) && texts(path@) == line_moves(self.parents@, fen@, n);
        let pv_san = uci_pv_to_san(fen, pv);
        let mut all_moves = clone_strings(&path);
        let novelty_idx = all_moves.len();
        if pv_san.len() > 0 {
            let mut k: usize = 0;
            while k < pv_san.len()
                invariant
                    k <= pv_san@.len(),
                    texts(all_moves@) == texts(path@) + texts(pv_san@).take(k as int),
                decreases pv_san@.len() - k,
            {
                let ghost before = all_moves@;
                all_moves.push(pv_san[k].clone());
                proof {
                    assert(texts(all_moves@) =~= texts(before).push(pv_san@[k as int]@));
                    assert(texts(pv_san@).take(k + 1) =~= texts(pv_san@).take(k as int).push(pv_san@[k as int]@));
                }
                k = k + 1;
            }
            proof {
                assert(texts(pv_san@).take(pv_san@.len() as int) =~= texts(pv_san@));
            }
        } else {
            let ghost before = all_moves@;
            all_moves.push(best_move.to_owned());
            proof {
                assert(texts(all_moves@) =~= texts(before).push(best_move@));
                assert(texts(path@) + seq![best_move@] =~= texts(path@).push(best_move@));
            }
        }
        let mut comment = String::from_str("{CP: ");
        comment.append(score);
        comment.append(" (N: ");
        comment.append(novelty);
        comment.append(", C: ");
        comment.append(complexity);
        comment.append(")} ");
        let opponent_is_white = is_opponent_white(fen);
        let mut out = String::from_str("[Event \"Prep vs ");
        out.append(self.opponent.as_str());
        out.append(" - Candidate #");
        let number = usize_to_decimal(index + 1);
        out.append(number.as_str());
        out.append("\"]\n");
        out.append("[Site \"chess-prep\"]\n");
        out.append("[Date \"2026.06.26\"]\n");
        out.append("[White \"");
        if opponent_is_white {
            out.append(self.opponent.as_str());
        } else {
            out.append("User");
        }
        out.append("\"]\n");
        out.append("[Black \"");
        if opponent_is_white {
            out.append("User");
        } else {
            out.append(self.opponent.as_str());
        }
        out.append("\"]\n");
        out.append("[Result \"*\"]\n");
        out.append("[Score \"");
        out.append(score);
        out.append("\"]\n");
        out.append("[Novelty \"");
        out.append(novelty);
        out.append("\"]\n");
        out.append("[Complexity \"");
        out.append(complexity);
        out.append("\"]\n");
        out.append("\n");
        let ghost headers = out@;
        proof {
            assert(headers =~= game_headers(self.opponent@, (index + 1) as nat, spec_is_opponent_white(fen@), score@, novelty@, complexity@));
        }
        push_moves_text(&mut out, &all_moves, novelty_idx, comment.as_str());
        out.append("*");
        out.append("\n\n");
        proof {
            let path_s = line_moves(self.parents@, fen@, n);
            assert(texts(path@) == path_s);
            assert(comment@ =~= score_comment(score@, novelty@, complexity@));
            let m = choose|m: nat| chain_ends(self.parents@, fen@, m);
            lemma_chain_unique(self.parents@, fen@, n, m);
        }
        out
    }

    /// The preparation file: the games of the candidate lines, in order,
    /// each line's scores written as `score_texts` gives them (final,
    /// novelty, complexity).
    pub fn annotate(&self, scored_lines: &Vec<ScoredLine>, score_texts: &Vec<(String, String, String)>) -> (r: String)
        requires
            score_texts@.len() == scored_lines@.len(),
            scored_lines@.len() < usize::MAX,
            forall|i: int| 0 <= i < scored_lines@.len() ==> #[trigger] has_line(self.parents@, scored_lines@[i].fen@),
        ensures
            r@ == games_text(self.opponent@, self.parents@, scored_lines@, score_texts@, scored_lines@.len() as nat),
    {
        let mut out = String::new();
        let mut i: usize = 0;
        while i < scored_lines.len()
            invariant
                i <= scored_lines@.len(),
                score_texts@.len() == scored_lines@.len(),
                scored_lines@.len() < usize::MAX,
                forall|k: int| 0 <= k < scored_lines@.len() ==> #[trigger] has_line(self.parents@, scored_lines@[k].fen@),
                out@ == games_text(self.opponent@, self.parents@, scored_lines@, score_texts@, i as nat),
            decreases scored_lines@.len() - i,
        {
            let line = &scored_lines[i];
            let st = &score_texts[i];
            assert(has_line(self.parents@, scored_lines@[i as int].fen@));
            let game = self.annotate_line(i, line.fen.as_str(), &line.pv, line.best_move.as_str(), st.0.as_str(), st.1.as_str(), st.2.as_str());
            out.append(game.as_str());
            i = i + 1;
        }
        out
    }
}

/// The game of candidate number `number`, whose novelty leads to `fen`: the
/// line to `fen` through the parent entries `pm`, then the engine's
/// variation `pv` in SAN (or `best`, when none of it can be played), with
/// the score comment after the novelty move.
pub open spec fn line_game(
    opponent: Seq<char>,
    pm: Map<Seq<char>, (String, String)>,
    number: nat,
    fen: Seq<char>,
    pv: Seq<Seq<char>>,
    best: Seq<char>,
    score: Seq<char>,
    novelty: Seq<char>,
    complexity: Seq<char>,
) -> Seq<char> {
    let n = choose|n: nat| chain_ends(pm, fen, n);
    let path = line_moves(pm, fen, n);
    let pv_san = pv_in_san(fen, pv);
    let all = path + if pv_san.len() > 0 { pv_san } else { seq![best] };
    game_headers(opponent, number, spec_is_opponent_white(fen), score, novelty, complexity)
        + moves_text(all, path.len() as int, score_comment(score, novelty, complexity), all.len())
        + "*"@ + "\n\n"@
}

/// The games of the first `k` lines, one after the other.
pub open spec fn games_text(
    opponent: Seq<char>,
    pm: Map<Seq<char>, (String, String)>,
    lines: Seq<ScoredLine>,
    score_texts: Seq<(String, String, String)>,
    k: nat,
) -> Seq<char>
    decreases k,
{
    if k == 0 {
        Seq::empty()
    } else {
        let i = (k - 1) as int;
        games_text(opponent, pm, lines, score_texts, (k - 1) as nat) + line_game(
            opponent,
            pm,
            k,
            lines[i].fen@,
            texts(lines[i].pv@),
            lines[i].best_move@,
            score_texts[i].0@,
            score_texts[i].1@,
            score_texts[i].2@,
        )
    }
}

} // verus!
