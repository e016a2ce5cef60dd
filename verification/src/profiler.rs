//! The choice of the positions where the opponent leaves known ground.
//!
//! A position is kept when it is deep enough, when the opponent's games
//! have rarely left from it (fewer moves than the novelty threshold), and
//! when its parent is a position the opponent knows well (at least the
//! threshold and the minimum parent count).  The kept positions come out
//! rarest first, then in code-point order of their text; the novelty score
//! of a position, which falls as its count rises, orders them the same way.

use vstd::prelude::*;
use vstd::hash_map::StringHashMap;
use crate::lines::{chain_ends, chain_length, get_ply_count, lemma_chain_unique};
use crate::chess::START_EPD;
use crate::reachability::{texts, explored, lemma_lines_lead_to_start};
use crate::text::{lex_lt, str_lt, lemma_lex_total, lemma_lex_trans, lemma_lex_irreflexive};
use crate::tree::{OpponentTree, count_of};

verus! {

/// Thresholds of the choice of novelties.
pub struct Profiler {
    pub novelty_threshold: u32,
    pub min_novelty_ply: u32,
    pub min_parent_count: u32,
}

/// A kept position and how many moves the opponent's games played from it.
#[derive(Debug, Clone, PartialEq, Eq)]
pub struct ProfiledPosition {
    pub fen: String,
    pub opponent_count: u32,
}

/// The number of parent entries above `f`.
pub open spec fn ply_of(pm: Map<Seq<char>, (String, String)>, f: Seq<char>) -> nat {
    choose|n: nat| chain_ends(pm, f, n)
}

/// The larger of two counts.
pub open spec fn max_u32(a: u32, b: u32) -> u32 {
    if a >= b {
        a
    } else {
        b
    }
}

/// `f` is kept: deep enough, rarely left by the opponent, and reached from
/// a position the opponent knows well.
pub open spec fn is_novelty(
    p: Profiler,
    pm: Map<Seq<char>, (String, String)>,
    counts: Map<Seq<char>, u32>,
    f: Seq<char>,
) -> bool {
    &&& ply_of(pm, f) >= p.min_novelty_ply
    &&& count_of(counts, f) < p.novelty_threshold
    &&& pm.contains_key(f)
    &&& count_of(counts, pm[f].0@) >= max_u32(p.min_parent_count, p.novelty_threshold)
}

/// The filter law: a position is kept exactly when it has a parent
/// entry, is at least `min_novelty_ply` entries deep, the opponent left it
/// fewer than `novelty_threshold` times, and the opponent left its parent
/// at least `novelty_threshold` times and at least `min_parent_count`
/// times.
pub proof fn lemma_novelty_conditions(
    p: Profiler,
    pm: Map<Seq<char>, (String, String)>,
    counts: Map<Seq<char>, u32>,
    f: Seq<char>,
)
    ensures
        is_novelty(p, pm, counts, f) <==> {
            &&& pm.contains_key(f)
            &&& ply_of(pm, f) >= p.min_novelty_ply
            &&& count_of(counts, f) < p.novelty_threshold
            &&& count_of(counts, pm[f].0@) >= p.novelty_threshold
            &&& count_of(counts, pm[f].0@) >= p.min_parent_count
        },
{
}

/// The order of the result: fewer opponent moves first, then code-point
/// order of the text.
pub open spec fn comes_before(a: ProfiledPosition, b: ProfiledPosition) -> bool {
    a.opponent_count < b.opponent_count || (a.opponent_count == b.opponent_count && lex_lt(a.fen@, b.fen@))
}

/// Every position's chain of parent entries ends, in at most `u32::MAX`
/// steps.
pub open spec fn plies_defined(pm: Map<Seq<char>, (String, String)>, fens: Seq<Seq<char>>) -> bool {
    forall|i: int| 0 <= i < fens.len() ==> #[trigger] ends_within(pm, fens[i], u32::MAX as nat)
}

/// The chain of parent entries of `f` ends within `limit` steps.
pub open spec fn ends_within(pm: Map<Seq<char>, (String, String)>, f: Seq<char>, limit: nat) -> bool {
    exists|n: nat| n <= limit && chain_ends(pm, f, n)
}

impl Profiler {
    pub fn new(novelty_threshold: u32, min_novelty_ply: u32, min_parent_count: u32) -> (r: Self)
        ensures
            r.novelty_threshold == novelty_threshold,
            r.min_novelty_ply == min_novelty_ply,
            r.min_parent_count == min_parent_count,
    {
        Self { novelty_threshold, min_novelty_ply, min_parent_count }
    }

    /// The kept positions among `reachable_positions`, each once, with the
    /// opponent's count, in the order of [`comes_before`].
    pub fn profile(
        &self,
        reachable_positions: &Vec<String>,
        parents: &StringHashMap<(String, String)>,
        opponent_tree: &OpponentTree,
    ) -> (r: Vec<ProfiledPosition>)
        requires
            texts(reachable_positions@).no_duplicates(),
            plies_defined(parents@, texts(reachable_positions@)),
        ensures
            forall|i: int| 0 <= i < r@.len() ==> {
                &&& texts(reachable_positions@).contains(#[trigger] r@[i].fen@)
                &&& is_novelty(*self, parents@, opponent_tree.positions@, r@[i].fen@)
                &&& r@[i].opponent_count == count_of(opponent_tree.positions@, r@[i].fen@)
            },
            forall|f: Seq<char>| texts(reachable_positions@).contains(f) && is_novelty(*self, parents@, opponent_tree.positions@, f)
                ==> exists|i: int| 0 <= i < r@.len() && #[trigger] r@[i].fen@ == f,
            forall|i: int, j: int| 0 <= i < j < r@.len() ==> comes_before(#[trigger] r@[i], #[trigger] r@[j]),
            forall|i: int, j: int| 0 <= i < j < r@.len() ==> (#[trigger] r@[i]).fen@ != (#[trigger] r@[j]).fen@,
            forall|i: int| 0 <= i < r@.len() ==> {
                let f = #[trigger] r@[i].fen@;
                &&& parents@.contains_key(f)
                &&& r@[i].opponent_count < self.novelty_threshold
                &&& count_of(opponent_tree.positions@, parents@[f].0@) >= self.novelty_threshold
                &&& count_of(opponent_tree.positions@, parents@[f].0@) >= self.min_parent_count
            },
    {
        let ghost pm = parents@;
        let ghost counts = opponent_tree.positions@;
        let ghost fens = texts(reachable_positions@);
        let mut profiles: Vec<ProfiledPosition> = Vec::new();
        let mut i: usize = 0;
        while i < reachable_positions.len()
            invariant
                i <= reachable_positions@.len(),
                pm == parents@,
                counts == opponent_tree.positions@,
                fens == texts(reachable_positions@),
                fens.no_duplicates(),
                plies_defined(pm, fens),
                forall|k: int| 0 <= k < profiles@.len() ==> {
                    &&& exists|m: int| 0 <= m < i && fens[m] == #[trigger] profiles@[k].fen@
                    &&& is_novelty(*self, pm, counts, profiles@[k].fen@)
                    &&& profiles@[k].opponent_count == count_of(counts, profiles@[k].fen@)
                },
                forall|m: int| 0 <= m < i && is_novelty(*self, pm, counts, #[trigger] fens[m])
                    ==> exists|k: int| 0 <= k < profiles@.len() && profiles@[k].fen@ == fens[m],
                forall|a: int, b: int| 0 <= a < b < profiles@.len() ==> comes_before(#[trigger] profiles@[a], #[trigger] profiles@[b]),
            decreases reachable_positions@.len() - i,
        {
            let fen = &reachable_positions[i];
            assert(fens[i as int] == fen@);
            assert(ends_within(pm, fens[i as int], u32::MAX as nat));
            let ply = get_ply_count(parents, fen.as_str());
            proof {
                let n = choose|n: nat| chain_ends(pm, fen@, n);
                lemma_chain_unique(pm, fen@, n, ply as nat);
                assert(ply_of(pm, fen@) == ply);
            }
            let mut keep = false;
            let mut count: u32 = 0;
            if ply >= self.min_novelty_ply {
                count = opponent_tree.get_count(fen.as_str());
                if count < self.novelty_threshold {
                    match parents.get(fen.as_str()) {
                        Some(entry) => {
                            let parent_count = opponent_tree.get_count(entry.0.as_str());
                            let min_p_required = if self.min_parent_count >= self.novelty_threshold {
                                self.min_parent_count
                            } else {
                                self.novelty_threshold
                            };
                            if parent_count >= min_p_required {
                                keep = true;
                            }
                        },
                        None => {},
                    }
                }
            }
            assert(keep == is_novelty(*self, pm, counts, fen@));
            if keep {
                let item = ProfiledPosition { fen: fen.clone(), opponent_count: count };
                // Find the first entry that the new one comes before.
                let mut j: usize = 0;
                while j < profiles.len() && !(profiles[j].opponent_count > count || (profiles[j].opponent_count == count && str_lt(fen.as_str(), profiles[j].fen.as_str())))
                    invariant
                        j <= profiles@.len(),
                        item.fen@ == fen@,
                        item.opponent_count == count,
                        forall|k: int| 0 <= k < j ==> !comes_before(item, #[trigger] profiles@[k]),
                    decreases profiles@.len() - j,
                {
                    j = j + 1;
                }
                let ghost before = profiles@;
                proof {
                    // Entries before `j` come before the new one; the others after it.
                    assert forall|k: int| 0 <= k < j implies comes_before(#[trigger] before[k], item) by {
                        assert(!comes_before(item, before[k]));
                        assert(exists|m: int| 0 <= m < i && fens[m] == before[k].fen@);
                        let m = choose|m: int| 0 <= m < i && fens[m] == before[k].fen@;
                        assert(m != i);
                        assert(fens[m] != fens[i as int]);
                        lemma_lex_total(before[k].fen@, item.fen@);
                    }
                    if j < before.len() {
                        assert(comes_before(item, before[j as int]));
                        assert forall|k: int| j <= k < before.len() implies comes_before(item, #[trigger] before[k]) by {
                            if k > j {
                                assert(comes_before(before[j as int], before[k]));
                                if item.opponent_count == before[j as int].opponent_count && before[j as int].opponent_count == before[k].opponent_count {
                                    lemma_lex_trans(item.fen@, before[j as int].fen@, before[k].fen@);
                                }
                            }
                        }
                    }
                }
                profiles.insert(j, item);
                proof {
                    assert forall|a: int, b: int| 0 <= a < b < profiles@.len() implies comes_before(#[trigger] profiles@[a], #[trigger] profiles@[b]) by {
                        if a < j && b < j {
                            assert(profiles@[a] == before[a] && profiles@[b] == before[b]);
                        } else if a < j && b == j {
                        } else if a < j {
                            assert(profiles@[b] == before[b - 1]);
                            assert(comes_before(before[a], item));
                            assert(comes_before(item, before[b - 1]));
                            if before[a].opponent_count == item.opponent_count && item.opponent_count == before[b - 1].opponent_count {
                                lemma_lex_trans(before[a].fen@, item.fen@, before[b - 1].fen@);
                            }
                        } else if a == j {
                            assert(profiles@[b] == before[b - 1]);
                        } else {
                            assert(profiles@[a] == before[a - 1] && profiles@[b] == before[b - 1]);
                        }
                    }
                    assert forall|k: int| 0 <= k < profiles@.len() implies {
                        &&& exists|m: int| 0 <= m < i + 1 && fens[m] == #[trigger] profiles@[k].fen@
                        &&& is_novelty(*self, pm, counts, profiles@[k].fen@)
                        &&& profiles@[k].opponent_count == count_of(counts, profiles@[k].fen@)
                    } by {
                        if k < j {
                            assert(profiles@[k] == before[k]);
                        } else if k == j {
                            assert(fens[i as int] == profiles@[k].fen@);
                        } else {
                            assert(profiles@[k] == before[k - 1]);
                        }
                    }
                    assert forall|m: int| 0 <= m < i + 1 && is_novelty(*self, pm, counts, #[trigger] fens[m])
                        implies exists|k: int| 0 <= k < profiles@.len() && profiles@[k].fen@ == fens[m] by {
                        if m < i {
                            let k = choose|k: int| 0 <= k < before.len() && before[k].fen@ == fens[m];
                            if k < j {
                                assert(profiles@[k] == before[k]);
                            } else {
                                assert(profiles@[k + 1] == before[k]);
                            }
                        } else {
                            assert(profiles@[j as int].fen@ == fens[m]);
                        }
                    }
                }
            }
            i = i + 1;
        }
        proof {
            assert forall|a: int, b: int| 0 <= a < b < profiles@.len() implies (#[trigger] profiles@[a]).fen@ != (#[trigger] profiles@[b]).fen@ by {
                lemma_lex_irreflexive(profiles@[a].fen@);
            }
            assert forall|i: int| 0 <= i < profiles@.len() implies {
                let f = #[trigger] profiles@[i].fen@;
                &&& parents@.contains_key(f)
                &&& profiles@[i].opponent_count < self.novelty_threshold
                &&& count_of(opponent_tree.positions@, parents@[f].0@) >= self.novelty_threshold
                &&& count_of(opponent_tree.positions@, parents@[f].0@) >= self.min_parent_count
            } by {
                lemma_novelty_conditions(*self, parents@, opponent_tree.positions@, profiles@[i].fen@);
            }
        }
        profiles
    }
}

/// Whether the chain of parent entries of every one of `fens` ends, each
/// within `limit` steps.
pub fn plies_within(parents: &StringHashMap<(String, String)>, fens: &Vec<String>, limit: u32) -> (r: bool)
    ensures
        r <==> forall|i: int| 0 <= i < fens@.len() ==> #[trigger] ends_within(parents@, texts(fens@)[i], limit as nat),
        r ==> plies_defined(parents@, texts(fens@)),
{
    let ghost pm = parents@;
    let ghost fs = texts(fens@);
    let mut i: usize = 0;
    while i < fens.len()
        invariant
            pm == parents@,
            fs == texts(fens@),
            i <= fens@.len(),
            forall|k: int| 0 <= k < i ==> #[trigger] ends_within(pm, fs[k], limit as nat),
        decreases fens@.len() - i,
    {
        match chain_length(parents, fens[i].as_str(), limit) {
            Some(n) => {
                proof {
                    assert(fs[i as int] == fens@[i as int]@);
                    assert(chain_ends(pm, fs[i as int], n as nat));
                    assert(ends_within(pm, fs[i as int], limit as nat));
                }
            },
            None => {
                proof {
                    assert(fs[i as int] == fens@[i as int]@);
                    assert(!ends_within(pm, fs[i as int], limit as nat));
                }
                return false;
            },
        }
        i = i + 1;
    }
    proof {
        assert forall|k: int| 0 <= k < fs.len() implies #[trigger] ends_within(pm, fs[k], u32::MAX as nat) by {
            assert(ends_within(pm, fs[k], limit as nat));
            let m = choose|m: nat| m <= limit && chain_ends(pm, fs[k], m);
            assert(m <= u32::MAX && chain_ends(pm, fs[k], m));
        }
    }
    true
}

/// The positions a walk explored meet what [`Profiler::profile`] asks of
/// its input, when no parent entry points back to the initial position and
/// there are at most `2^32` of them.
pub proof fn lemma_explored_positions_have_plies(
    opp: Map<Seq<char>, Vec<(String, String)>>,
    rep: Map<Seq<char>, (String, String)>,
    mask: nat,
    maxd: nat,
    positions: Seq<Seq<char>>,
    parents: Map<Seq<char>, (String, String)>,
)
    requires
        explored(opp, rep, mask, maxd, positions.to_set(), parents),
        positions.no_duplicates(),
        !parents.contains_key(START_EPD@),
        positions.len() <= u32::MAX + 1,
    ensures
        plies_defined(parents, positions),
{
    assert forall|i: int| 0 <= i < positions.len() implies #[trigger] ends_within(parents, positions[i], u32::MAX as nat) by {
        lemma_lines_lead_to_start(opp, rep, mask, maxd, positions, parents, positions[i]);
    }
}

} // verus!
