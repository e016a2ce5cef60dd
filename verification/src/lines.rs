//! Parent entries and the lines of moves they describe.
//!
//! A parent map gives, for a position, the position it was reached from
//! and the move played.  Following it from a position walks back towards
//! the initial position.

use vstd::prelude::*;
use vstd::hash_map::StringHashMap;

verus! {

/// The position `k` steps up the parent entries from `f`.
pub open spec fn ancestor(pm: Map<Seq<char>, (String, String)>, f: Seq<char>, k: nat) -> Seq<char>
    decreases k,
{
    if k == 0 {
        f
    } else {
        ancestor(pm, pm[f].0@, (k - 1) as nat)
    }
}

/// Walking up from `f`, the first `n` positions have parent entries and
/// the `n`-th (counting `f` as the 0-th) has none.
pub open spec fn chain_ends(pm: Map<Seq<char>, (String, String)>, f: Seq<char>, n: nat) -> bool {
    &&& !pm.contains_key(ancestor(pm, f, n))
    &&& forall|k: nat| k < n ==> pm.contains_key(#[trigger] ancestor(pm, f, k))
}

/// The chain of parent entries above `f` ends.
pub open spec fn has_line(pm: Map<Seq<char>, (String, String)>, f: Seq<char>) -> bool {
    exists|n: nat| chain_ends(pm, f, n)
}

/// One step more up is one parent entry more.
pub proof fn lemma_ancestor_step(pm: Map<Seq<char>, (String, String)>, f: Seq<char>, k: nat)
    ensures
        ancestor(pm, f, k + 1) == pm[ancestor(pm, f, k)].0@,
    decreases k,
{
    if k > 0 {
        lemma_ancestor_step(pm, pm[f].0@, (k - 1) as nat);
        assert(ancestor(pm, f, k) == ancestor(pm, pm[f].0@, (k - 1) as nat));
        assert(ancestor(pm, f, k + 1) == ancestor(pm, pm[f].0@, k));
    } else {
        assert(ancestor(pm, f, 1) == ancestor(pm, pm[f].0@, 0));
    }
}

/// A chain ends at one length only.
pub proof fn lemma_chain_unique(pm: Map<Seq<char>, (String, String)>, f: Seq<char>, n: nat, m: nat)
    requires
        chain_ends(pm, f, n),
        chain_ends(pm, f, m),
    ensures
        n == m,
{
    if n < m {
        assert(pm.contains_key(ancestor(pm, f, n)));
    }
    if m < n {
        assert(pm.contains_key(ancestor(pm, f, m)));
    }
}

/// The moves from the top of the chain down to `f`: the move of the
/// entry `k` steps up stands at `n - 1 - k`.
pub open spec fn line_moves(pm: Map<Seq<char>, (String, String)>, f: Seq<char>, n: nat) -> Seq<Seq<char>> {
    Seq::new(n, |i: int| pm[ancestor(pm, f, (n - 1 - i) as nat)].1@)
}

/// The number of parent entries above `fen`: its ply count when the
/// entries lead back to the initial position.
pub fn get_ply_count(parents: &StringHashMap<(String, String)>, fen: &str) -> (r: u32)
    requires
        exists|n: nat| n <= u32::MAX && chain_ends(parents@, fen@, n),
    ensures
        chain_ends(parents@, fen@, r as nat),
{
    let ghost pm = parents@;
    let ghost n = choose|n: nat| n <= u32::MAX && chain_ends(pm, fen@, n);
    let mut count: u32 = 0;
    let mut current = fen.to_owned();
    while parents.contains_key(current.as_str())
        invariant
            pm == parents@,
            chain_ends(pm, fen@, n),
            n <= u32::MAX,
            count <= n,
            current@ == ancestor(pm, fen@, count as nat),
        decreases n - count,
    {
        proof {
            if count == n {
                assert(!pm.contains_key(current@));
            }
            lemma_ancestor_step(pm, fen@, count as nat);
        }
        let next = match parents.get(current.as_str()) {
            Some(entry) => entry.0.clone(),
            None => current.clone(),
        };
        count = count + 1;
        current = next;
    }
    proof {
        assert forall|k: nat| k < count implies pm.contains_key(#[trigger] ancestor(pm, fen@, k)) by {
            assert(k < n);
        }
    }
    count
}

/// The moves of the line that leads to `fen` through the parent entries,
/// from the top of the chain down to `fen`.
pub fn line_to_position(parents: &StringHashMap<(String, String)>, fen: &str) -> (r: Vec<String>)
    requires
        exists|n: nat| chain_ends(parents@, fen@, n),
    ensures
        exists|n: nat| chain_ends(parents@, fen@, n) && r@.map_values(|m: String| m@) == line_moves(parents@, fen@, n),
{
    let ghost pm = parents@;
    let ghost n = choose|n: nat| chain_ends(pm, fen@, n);
    let mut up: Vec<String> = Vec::new();
    let mut current = fen.to_owned();
    while parents.contains_key(current.as_str())
        invariant
            pm == parents@,
            chain_ends(pm, fen@, n),
            up@.len() <= n,
            current@ == ancestor(pm, fen@, up@.len() as nat),
            forall|k: int| 0 <= k < up@.len() ==> #[trigger] up@[k]@ == pm[ancestor(pm, fen@, k as nat)].1@,
        decreases n - up@.len(),
    {
        proof {
            if up@.len() == n {
                assert(!pm.contains_key(current@));
            }
            lemma_ancestor_step(pm, fen@, up@.len() as nat);
        }
        let (next, mv) = match parents.get(current.as_str()) {
            Some(entry) => (entry.0.clone(), entry.1.clone()),
            None => (current.clone(), current.clone()),
        };
        up.push(mv);
        current = next;
    }
    proof {
        if up@.len() < n {
            assert(pm.contains_key(ancestor(pm, fen@, up@.len() as nat)));
        }
    }
    // Reverse: the moves nearest the top come first.
    let mut r: Vec<String> = Vec::new();
    let mut i: usize = up.len();
    while i > 0
        invariant
            i <= up@.len(),
            up@.len() == n,
            r@.len() == n - i,
            forall|k: int| 0 <= k < up@.len() ==> #[trigger] up@[k]@ == pm[ancestor(pm, fen@, k as nat)].1@,
            forall|j: int| 0 <= j < r@.len() ==> #[trigger] r@[j]@ == up@[n - 1 - j]@,
        decreases i,
    {
        i = i - 1;
        r.push(up[i].clone());
    }
    proof {
        assert(r@.map_values(|m: String| m@) =~= line_moves(pm, fen@, n));
    }
    r
}

/// The number of parent entries above `fen`, when the walk up ends within
/// `limit` steps; `None` when it does not (a longer chain, or a cycle).
pub fn chain_length(parents: &StringHashMap<(String, String)>, fen: &str, limit: u32) -> (r: Option<u32>)
    ensures
        r matches Some(n) ==> n <= limit && chain_ends(parents@, fen@, n as nat),
        r is None ==> forall|n: nat| n <= limit ==> !chain_ends(parents@, fen@, n),
{
    let ghost pm = parents@;
    let mut count: u32 = 0;
    let mut current = fen.to_owned();
    while parents.contains_key(current.as_str())
        invariant
            pm == parents@,
            count <= limit,
            current@ == ancestor(pm, fen@, count as nat),
            forall|k: nat| k < count ==> pm.contains_key(#[trigger] ancestor(pm, fen@, k)),
        decreases limit - count,
    {
        if count == limit {
            proof {
                assert forall|n: nat| n <= limit implies !chain_ends(pm, fen@, n) by {
                    if n < limit {
                        assert(pm.contains_key(ancestor(pm, fen@, n)));
                    }
                }
            }
            return None;
        }
        proof {
            lemma_ancestor_step(pm, fen@, count as nat);
        }
        let next = match parents.get(current.as_str()) {
            Some(entry) => entry.0.clone(),
            None => current.clone(),
        };
        proof {
            assert forall|k: nat| k < count + 1 implies pm.contains_key(#[trigger] ancestor(pm, fen@, k)) by {
                if k == count {
                    assert(ancestor(pm, fen@, k) == current@);
                }
            }
        }
        count = count + 1;
        current = next;
    }
    Some(count)
}

} // verus!
