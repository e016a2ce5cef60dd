//! The positions that the user's repertoire can reach against the
//! opponent.
//!
//! The user's repertoire (a PGN file with variations) is read by
//! [`RepertoryVisitor`] into a map from each position to the position and
//! move it came from.  [`ReachabilityEngine::compute`] then walks from the
//! initial position: while the walk stays inside the part of the opponent's
//! tree that the repertoire covers it follows the repertoire's moves that
//! the opponent has also met; past the mask depth, or where the two part
//! ways, it follows every move of the opponent's tree.

use vstd::prelude::*;
use vstd::hash_map::StringHashMap;
use vstd::hash_set::StringHashSet;
use vstd::string::StringExecFns;
use crate::chess::{START_EPD, play_san, play_uci, san_successor, uci_successor};
use crate::tree::{OpponentTree, edges_from, edges_view, clone_pairs};
use crate::lines::{ancestor, chain_ends};

verus! {

/// Reads the user's repertoire from the events of a PGN reader, following
/// variations.
pub struct RepertoryVisitor {
    /// One frame per open line: (position before the last move, current
    /// position).
    pub stack: Vec<(String, String)>,
    /// Every position met in the repertoire.
    pub positions: StringHashSet,
    /// For each position reached by a move: the position it was reached
    /// from and the move, as last read.
    pub parents: StringHashMap<(String, String)>,
    /// The positions that have an entry in `parents`, in the order they
    /// first got one.
    pub children: Vec<String>,
}

/// The texts of a list of strings.
pub open spec fn texts(v: Seq<String>) -> Seq<Seq<char>> {
    v.map_values(|s: String| s@)
}

/// The texts of the frames of a stack.
pub open spec fn frames(v: Seq<(String, String)>) -> Seq<(Seq<char>, Seq<char>)> {
    edges_view(v)
}

impl RepertoryVisitor {
    pub open spec fn wf(&self) -> bool {
        &&& texts(self.children@).no_duplicates()
        &&& texts(self.children@).to_set() == self.parents@.dom()
    }

    /// The open lines, innermost last: (position before the last move,
    /// current position).
    pub open spec fn lines(&self) -> Seq<(Seq<char>, Seq<char>)> {
        frames(self.stack@)
    }

    /// The positions having a parent entry, in the order they got one.
    pub open spec fn children_order(&self) -> Seq<Seq<char>> {
        texts(self.children@)
    }

    /// A visitor with one line open at the initial position.
    pub fn new() -> (v: Self)
        ensures
            v.wf(),
            v.lines() == seq![(START_EPD@, START_EPD@)],
            v.positions@ == Set::<Seq<char>>::empty(),
            v.parents@ == Map::<Seq<char>, (String, String)>::empty(),
    {
        let mut stack: Vec<(String, String)> = Vec::new();
        stack.push((String::from_str(START_EPD), String::from_str(START_EPD)));
        let v = RepertoryVisitor {
            stack,
            positions: StringHashSet::new(),
            parents: StringHashMap::new(),
            children: Vec::new(),
        };
        proof {
            assert(texts(v.children@).to_set() =~= v.parents@.dom());
            assert(v.lines() =~= seq![(START_EPD@, START_EPD@)]);
        }
        v
    }

    /// The number of open lines.
    pub fn depth(&self) -> (r: usize)
        ensures
            r == self.lines().len(),
    {
        self.stack.len()
    }

    /// The start of a game's moves: one line open at the initial position.
    pub fn begin_movetext(&mut self)
        requires
            old(self).wf(),
        ensures
            final(self).wf(),
            final(self).lines() == seq![(START_EPD@, START_EPD@)],
            final(self).positions@ == old(self).positions@,
            final(self).parents@ == old(self).parents@,
            final(self).children_order() == old(self).children_order(),
    {
        let mut stack: Vec<(String, String)> = Vec::new();
        stack.push((String::from_str(START_EPD), String::from_str(START_EPD)));
        self.stack = stack;
        proof {
            assert(self.lines() =~= seq![(START_EPD@, START_EPD@)]);
        }
    }

    /// A move in SAN, on the innermost line.  The current position is
    /// recorded; when the move is legal there, the new position is recorded
    /// with the current one and the move as its parent entry, the line
    /// advances, and the answer is `true`.  Otherwise the answer is `false`
    /// and the reading of this game stops.
    pub fn san(&mut self, san: &str) -> (go_on: bool)
        requires
            old(self).wf(),
            old(self).lines().len() > 0,
        ensures
            final(self).wf(),
            ({
                let n = old(self).lines().len();
                let cur = old(self).lines()[n - 1].1;
                &&& go_on == san_successor(cur, san@).is_some()
                &&& !go_on ==> {
                    &&& final(self).positions@ == old(self).positions@.insert(cur)
                    &&& final(self).parents@ == old(self).parents@
                    &&& final(self).lines() == old(self).lines()
                    &&& final(self).children_order() == old(self).children_order()
                }
                &&& go_on ==> {
                    let next = san_successor(cur, san@).unwrap();
                    &&& final(self).positions@ == old(self).positions@.insert(cur).insert(next)
                    &&& final(self).parents@.dom() == old(self).parents@.dom().insert(next)
                    &&& final(self).parents@[next].0@ == cur
                    &&& final(self).parents@[next].1@ == san@
                    &&& forall|c: Seq<char>| c != next && old(self).parents@.contains_key(c)
                        ==> #[trigger] final(self).parents@[c] == old(self).parents@[c]
                    &&& final(self).lines() == old(self).lines().update(n - 1, (cur, next))
                    &&& old(self).children_order().is_prefix_of(final(self).children_order())
                }
            }),
    {
        let n = self.stack.len();
        let cur = self.stack[n - 1].1.clone();
        self.positions.insert(cur.clone());
        match play_san(cur.as_str(), san) {
            None => false,
            Some(next) => {
                self.positions.insert(next.clone());
                let fresh = !self.parents.contains_key(next.as_str());
                self.parents.insert(next.clone(), (cur.clone(), String::from_str(san)));
                if fresh {
                    self.children.push(next.clone());
                }
                let ghost old_children = old(self).children@;
                proof {
                    if fresh {
                        assert(texts(self.children@) == texts(old_children).push(next@));
                        texts(old_children).lemma_push_to_set_commute(next@);
                    } else {
                        assert(texts(self.children@) == texts(old_children));
                    }
                    assert(texts(self.children@).to_set() =~= self.parents@.dom());
                    assert(texts(old_children).is_prefix_of(texts(self.children@)));
                }
                self.stack.set(n - 1, (cur, next));
                proof {
                    assert(self.lines() =~= old(self).lines().update(n - 1, (self.stack@[n - 1].0@, self.stack@[n - 1].1@)));
                }
                true
            },
        }
    }

    /// The start of a variation: a new innermost line, at the position
    /// before the last move of the line it branches from.
    pub fn begin_variation(&mut self)
        requires
            old(self).wf(),
            old(self).lines().len() > 0,
        ensures
            final(self).wf(),
            ({
                let n = old(self).lines().len();
                let prev = old(self).lines()[n - 1].0;
                final(self).lines() == old(self).lines().push((prev, prev))
            }),
            final(self).positions@ == old(self).positions@,
            final(self).parents@ == old(self).parents@,
            final(self).children_order() == old(self).children_order(),
    {
        let n = self.stack.len();
        let prev = self.stack[n - 1].0.clone();
        self.stack.push((prev.clone(), prev));
        proof {
            assert(self.lines() =~= old(self).lines().push((self.stack@[n as int].0@, self.stack@[n as int].1@)));
        }
    }

    /// The end of a variation: the innermost line closes (nothing happens
    /// when no line is open).
    pub fn end_variation(&mut self)
        requires
            old(self).wf(),
        ensures
            final(self).wf(),
            old(self).lines().len() > 0 ==> final(self).lines() == old(self).lines().drop_last(),
            old(self).lines().len() == 0 ==> final(self).lines() == old(self).lines(),
            final(self).positions@ == old(self).positions@,
            final(self).parents@ == old(self).parents@,
            final(self).children_order() == old(self).children_order(),
    {
        let _ = self.stack.pop();
        proof {
            assert(old(self).lines().len() > 0 ==> self.lines() =~= old(self).lines().drop_last());
        }
    }
}


/// The opponent's tree played `s` from `f`, reaching `c`.
pub open spec fn opp_edge(
    opp: Map<Seq<char>, Vec<(String, String)>>,
    f: Seq<char>,
    c: Seq<char>,
    s: Seq<char>,
) -> bool {
    edges_from(opp, f).contains((c, s))
}

/// The opponent's tree went from `f` to `c`.
pub open spec fn opp_child(opp: Map<Seq<char>, Vec<(String, String)>>, f: Seq<char>, c: Seq<char>) -> bool {
    exists|s: Seq<char>| #[trigger] opp_edge(opp, f, c, s)
}

/// The repertoire reached `c` from `f` by `s`.
pub open spec fn user_edge(rep: Map<Seq<char>, (String, String)>, f: Seq<char>, c: Seq<char>, s: Seq<char>) -> bool {
    rep.contains_key(c) && rep[c].0@ == f && rep[c].1@ == s
}

/// Some move of the repertoire from `f` leads where the opponent has also
/// gone from `f`.
pub open spec fn shared_move(
    opp: Map<Seq<char>, Vec<(String, String)>>,
    rep: Map<Seq<char>, (String, String)>,
    f: Seq<char>,
) -> bool {
    exists|c: Seq<char>, s: Seq<char>| #[trigger] user_edge(rep, f, c, s) && opp_child(opp, f, c)
}

/// Whether the walk is still inside the repertoire after leaving `f`,
/// reached at depth `d` with `inside` telling whether it was inside there.
pub open spec fn stays_inside(
    opp: Map<Seq<char>, Vec<(String, String)>>,
    rep: Map<Seq<char>, (String, String)>,
    mask: nat,
    f: Seq<char>,
    d: nat,
    inside: bool,
) -> bool {
    inside && d < mask && shared_move(opp, rep, f)
}

/// The moves the walk follows from `f` (reached at depth `d`, `inside` or
/// not): inside the repertoire and before the mask depth, the
/// repertoire's moves to positions the opponent has also reached from `f`
/// when there are any; otherwise every move of the opponent's tree.
pub open spec fn followed(
    opp: Map<Seq<char>, Vec<(String, String)>>,
    rep: Map<Seq<char>, (String, String)>,
    mask: nat,
    f: Seq<char>,
    d: nat,
    inside: bool,
    c: Seq<char>,
    s: Seq<char>,
) -> bool {
    if stays_inside(opp, rep, mask, f, d, inside) {
        user_edge(rep, f, c, s) && opp_child(opp, f, c)
    } else {
        opp_edge(opp, f, c, s)
    }
}

/// `m2` holds every entry of `m1`.
pub open spec fn extends<K, V>(m1: Map<K, V>, m2: Map<K, V>) -> bool {
    forall|k: K| #[trigger] m1.contains_key(k) ==> m2.contains_key(k) && m2[k] == m1[k]
}

/// Every move followed from `p` leads to a position with a parent entry,
/// and, below the depth limit, to an explored position.
pub open spec fn closed_at(
    opp: Map<Seq<char>, Vec<(String, String)>>,
    rep: Map<Seq<char>, (String, String)>,
    mask: nat,
    maxd: nat,
    visited: Set<Seq<char>>,
    parents: Map<Seq<char>, (String, String)>,
    label: Map<Seq<char>, (nat, bool)>,
    p: Seq<char>,
) -> bool {
    forall|c: Seq<char>, s: Seq<char>|
        #[trigger] followed(opp, rep, mask, p, label[p].0, label[p].1, c, s) ==> parents.contains_key(c)
            && (label[p].0 + 1 < maxd ==> visited.contains(c))
}

/// `v` was reached from `via[v]`, by a followed move, one level deeper.
pub open spec fn reached_via(
    opp: Map<Seq<char>, Vec<(String, String)>>,
    rep: Map<Seq<char>, (String, String)>,
    mask: nat,
    visited: Set<Seq<char>>,
    label: Map<Seq<char>, (nat, bool)>,
    via: Map<Seq<char>, (Seq<char>, Seq<char>)>,
    v: Seq<char>,
) -> bool {
    let q = via[v].0;
    &&& via.contains_key(v)
    &&& visited.contains(q)
    &&& followed(opp, rep, mask, q, label[q].0, label[q].1, v, via[v].1)
    &&& label[v] == (label[q].0 + 1, stays_inside(opp, rep, mask, q, label[q].0, label[q].1))
}

/// The facts that the walk keeps about the explored positions `visited`
/// (each with its depth and inside flag in `label`), the parent entries,
/// the positions still being explored (`open`), and a ranking in which
/// every parent entry points to an earlier position.
pub open spec fn explore_inv(
    opp: Map<Seq<char>, Vec<(String, String)>>,
    rep: Map<Seq<char>, (String, String)>,
    mask: nat,
    maxd: nat,
    visited: Set<Seq<char>>,
    parents: Map<Seq<char>, (String, String)>,
    label: Map<Seq<char>, (nat, bool)>,
    via: Map<Seq<char>, (Seq<char>, Seq<char>)>,
    rank: Map<Seq<char>, nat>,
    next_rank: nat,
    open: Set<Seq<char>>,
) -> bool {
    &&& label.dom() == visited
    &&& open.subset_of(visited)
    &&& visited.contains(START_EPD@) ==> label[START_EPD@] == (0nat, true)
    &&& forall|v: Seq<char>| #[trigger] visited.contains(v) ==> label[v].0 < maxd
    &&& forall|v: Seq<char>| #[trigger] visited.contains(v) ==> visited.contains(START_EPD@)
    &&& forall|v: Seq<char>| #[trigger] via.contains_key(v) ==> visited.contains(v)
    &&& forall|v: Seq<char>| #[trigger] visited.contains(v) && v != START_EPD@ ==> reached_via(opp, rep, mask, visited, label, via, v)
    &&& forall|v: Seq<char>| #[trigger] visited.contains(v) ==> v == START_EPD@ || parents.contains_key(v)
    &&& forall|c: Seq<char>| #[trigger] parents.contains_key(c) ==> {
        let p = parents[c].0@;
        &&& visited.contains(p)
        &&& followed(opp, rep, mask, p, label[p].0, label[p].1, c, parents[c].1@)
    }
    &&& forall|p: Seq<char>| #[trigger] visited.contains(p) && !open.contains(p) ==> closed_at(opp, rep, mask, maxd, visited, parents, label, p)
    &&& forall|x: Seq<char>| #[trigger] rank.contains_key(x) <==> (visited.contains(x) || parents.contains_key(x))
    &&& forall|x: Seq<char>| #[trigger] rank.contains_key(x) ==> rank[x] < next_rank
    &&& forall|c: Seq<char>| #[trigger] parents.contains_key(c) && c != START_EPD@ ==> rank[parents[c].0@] < rank[c]
}

/// The walk's state only grew from the first to the second.
pub open spec fn grows(
    visited1: Set<Seq<char>>, parents1: Map<Seq<char>, (String, String)>, label1: Map<Seq<char>, (nat, bool)>,
    via1: Map<Seq<char>, (Seq<char>, Seq<char>)>, rank1: Map<Seq<char>, nat>,
    visited2: Set<Seq<char>>, parents2: Map<Seq<char>, (String, String)>, label2: Map<Seq<char>, (nat, bool)>,
    via2: Map<Seq<char>, (Seq<char>, Seq<char>)>, rank2: Map<Seq<char>, nat>,
) -> bool {
    &&& visited1.subset_of(visited2)
    &&& extends(parents1, parents2)
    &&& extends(label1, label2)
    &&& extends(via1, via2)
    &&& extends(rank1, rank2)
}

/// Growth keeps finished positions closed.
proof fn lemma_closed_grows(
    opp: Map<Seq<char>, Vec<(String, String)>>,
    rep: Map<Seq<char>, (String, String)>,
    mask: nat,
    maxd: nat,
    visited1: Set<Seq<char>>, parents1: Map<Seq<char>, (String, String)>, label1: Map<Seq<char>, (nat, bool)>,
    visited2: Set<Seq<char>>, parents2: Map<Seq<char>, (String, String)>, label2: Map<Seq<char>, (nat, bool)>,
    p: Seq<char>,
)
    requires
        closed_at(opp, rep, mask, maxd, visited1, parents1, label1, p),
        label1.contains_key(p),
        visited1.subset_of(visited2),
        extends(parents1, parents2),
        extends(label1, label2),
    ensures
        closed_at(opp, rep, mask, maxd, visited2, parents2, label2, p),
{
    assert(label2[p] == label1[p]);
    assert forall|c: Seq<char>, s: Seq<char>|
        #[trigger] followed(opp, rep, mask, p, label2[p].0, label2[p].1, c, s) implies parents2.contains_key(c)
            && (label2[p].0 + 1 < maxd ==> visited2.contains(c)) by {
        assert(followed(opp, rep, mask, p, label1[p].0, label1[p].1, c, s));
        assert(parents1.contains_key(c));
    }
}


/// `user` lists, from each position, exactly the repertoire's moves.
pub open spec fn user_map_ok(user: Map<Seq<char>, Vec<(String, String)>>, rep: Map<Seq<char>, (String, String)>) -> bool {
    forall|f: Seq<char>, c: Seq<char>, s: Seq<char>|
        #![trigger edges_from(user, f).contains((c, s))]
        #![trigger user_edge(rep, f, c, s)]
        edges_from(user, f).contains((c, s)) <==> user_edge(rep, f, c, s)
}

/// The pairs recorded from `fen` in a map of lists (a copy).
fn pairs_from(m: &StringHashMap<Vec<(String, String)>>, fen: &str) -> (r: Vec<(String, String)>)
    ensures
        edges_view(r@) == edges_from(m@, fen@),
{
    match m.get(fen) {
        Some(v) => clone_pairs(v),
        None => Vec::new(),
    }
}

/// Whether some pair of `list` has `c` as its first text.
fn has_child(list: &Vec<(String, String)>, c: &str) -> (r: bool)
    ensures
        r == exists|k: int| 0 <= k < list@.len() && #[trigger] list@[k].0@ == c@,
{
    let mut i: usize = 0;
    while i < list.len()
        invariant
            i <= list@.len(),
            forall|k: int| 0 <= k < i ==> #[trigger] list@[k].0@ != c@,
        decreases list@.len() - i,
    {
        if crate::text::str_eq(list[i].0.as_str(), c) {
            return true;
        }
        i = i + 1;
    }
    false
}

/// The pairs of `list` whose position the opponent's tree also reached
/// from `f`, in the order of `list`.
pub open spec fn kept_moves(
    opp: Map<Seq<char>, Vec<(String, String)>>,
    f: Seq<char>,
    list: Seq<(Seq<char>, Seq<char>)>,
) -> Seq<(Seq<char>, Seq<char>)>
    decreases list.len(),
{
    if list.len() == 0 {
        list
    } else {
        let rest = kept_moves(opp, f, list.drop_last());
        if opp_child(opp, f, list.last().0) {
            rest.push(list.last())
        } else {
            rest
        }
    }
}

/// The moves the walk takes from `f`, reached at depth `d` with the flag
/// `inside`, in order, and whether it stays inside the repertoire after
/// them: inside, the moves of `user` (the repertoire's moves, listed from
/// each position) that the opponent's tree shares; otherwise the opponent's
/// moves as recorded.
pub open spec fn next_moves(
    opp: Map<Seq<char>, Vec<(String, String)>>,
    rep: Map<Seq<char>, (String, String)>,
    mask: nat,
    user: Map<Seq<char>, Vec<(String, String)>>,
) -> spec_fn(Seq<char>, nat, bool) -> (Seq<(Seq<char>, Seq<char>)>, bool) {
    |f: Seq<char>, d: nat, inside: bool|
        if stays_inside(opp, rep, mask, f, d, inside) {
            (kept_moves(opp, f, edges_from(user, f)), true)
        } else {
            (edges_from(opp, f), false)
        }
}

/// The explored positions in the order of exploration, and the parent
/// entries as texts.
pub type WalkState = (Seq<Seq<char>>, Map<Seq<char>, (Seq<char>, Seq<char>)>);

/// The parent entries as texts.
pub open spec fn entries_view(parents: Map<Seq<char>, (String, String)>) -> Map<Seq<char>, (Seq<char>, Seq<char>)> {
    parents.map_values(|e: (String, String)| (e.0@, e.1@))
}

/// The walk from `f`, reached at depth `d` with the flag `inside`, from
/// the state `st`: below the depth limit and when `f` is new, `f` is
/// explored, then each move that `next` gives is taken in turn, its
/// position getting a parent entry unless it has one, and walked from one
/// level deeper.
pub open spec fn walk(
    next: spec_fn(Seq<char>, nat, bool) -> (Seq<(Seq<char>, Seq<char>)>, bool),
    maxd: nat,
    f: Seq<char>,
    d: nat,
    inside: bool,
    st: WalkState,
) -> WalkState
    decreases maxd - d, 1nat, 0nat,
{
    if d >= maxd || st.0.contains(f) {
        st
    } else {
        let mv = next(f, d, inside);
        walk_list(next, maxd, f, d, mv.1, mv.0, 0, (st.0.push(f), st.1))
    }
}

/// The moves `moves[i..]` out of `f` (at depth `d`), taken in turn.
pub open spec fn walk_list(
    next: spec_fn(Seq<char>, nat, bool) -> (Seq<(Seq<char>, Seq<char>)>, bool),
    maxd: nat,
    f: Seq<char>,
    d: nat,
    next_inside: bool,
    moves: Seq<(Seq<char>, Seq<char>)>,
    i: nat,
    st: WalkState,
) -> WalkState
    decreases maxd - d, 0nat, moves.len() - i,
{
    if d >= maxd || i >= moves.len() {
        st
    } else {
        let c = moves[i as int].0;
        let s = moves[i as int].1;
        let st1 = if st.1.contains_key(c) {
            st
        } else {
            (st.0, st.1.insert(c, (f, s)))
        };
        walk_list(next, maxd, f, d, next_inside, moves, i + 1, walk(next, maxd, c, d + 1, next_inside, st1))
    }
}

/// What the walk from the initial position gives, with `user` listing
/// the repertoire's moves from each position.
pub open spec fn walk_from_start(
    opp: Map<Seq<char>, Vec<(String, String)>>,
    rep: Map<Seq<char>, (String, String)>,
    mask: nat,
    maxd: nat,
    user: Map<Seq<char>, Vec<(String, String)>>,
) -> WalkState {
    walk(next_moves(opp, rep, mask, user), maxd, START_EPD@, 0, true, (Seq::empty(), Map::empty()))
}

/// `positions` (in the order of exploration) and the parent entries
/// `parents` are what the walk from the initial position gives, for some
/// listing `user` of the repertoire's moves from each position.
pub open spec fn walk_result(
    opp: Map<Seq<char>, Vec<(String, String)>>,
    rep: Map<Seq<char>, (String, String)>,
    mask: nat,
    maxd: nat,
    positions: Seq<Seq<char>>,
    parents: Map<Seq<char>, (Seq<char>, Seq<char>)>,
) -> bool {
    exists|user: Map<Seq<char>, Vec<(String, String)>>|
        user_map_ok(user, rep) && #[trigger] walk_from_start(opp, rep, mask, maxd, user) == (positions, parents)
}

/// With a mask depth of 0 the repertoire is never consulted: the walk
/// gives the same positions, in the same order, and the same parent
/// entries as with an empty repertoire and any mask depth.
pub proof fn lemma_mask_zero_ignores_repertoire(
    opp: Map<Seq<char>, Vec<(String, String)>>,
    rep: Map<Seq<char>, (String, String)>,
    mask: nat,
    maxd: nat,
    positions1: Seq<Seq<char>>,
    parents1: Map<Seq<char>, (Seq<char>, Seq<char>)>,
    positions2: Seq<Seq<char>>,
    parents2: Map<Seq<char>, (Seq<char>, Seq<char>)>,
)
    requires
        walk_result(opp, rep, 0, maxd, positions1, parents1),
        walk_result(opp, Map::empty(), mask, maxd, positions2, parents2),
    ensures
        positions1 == positions2,
        parents1 == parents2,
{
    let user1 = choose|user: Map<Seq<char>, Vec<(String, String)>>|
        user_map_ok(user, rep) && #[trigger] walk_from_start(opp, rep, 0, maxd, user) == (positions1, parents1);
    let user2 = choose|user: Map<Seq<char>, Vec<(String, String)>>|
        user_map_ok(user, Map::empty()) && #[trigger] walk_from_start(opp, Map::empty(), mask, maxd, user) == (positions2, parents2);
    let n1 = next_moves(opp, rep, 0, user1);
    let n2 = next_moves(opp, Map::empty(), mask, user2);
    assert forall|f: Seq<char>, d: nat, inside: bool| #[trigger] n1(f, d, inside) == n2(f, d, inside) by {
        assert(!stays_inside(opp, rep, 0, f, d, inside));
        if shared_move(opp, Map::<Seq<char>, (String, String)>::empty(), f) {
            let (c, s) = choose|c: Seq<char>, s: Seq<char>| #[trigger] user_edge(Map::<Seq<char>, (String, String)>::empty(), f, c, s) && opp_child(opp, f, c);
        }
        assert(!stays_inside(opp, Map::empty(), mask, f, d, inside));
    }
    assert(n1 =~= n2);
}

/// The moves followed from `fen`, reached at `depth` with the flag
/// `inside`, and whether the walk stays inside the repertoire after them.
fn followed_moves(
    tree: &OpponentTree,
    user: &StringHashMap<Vec<(String, String)>>,
    Ghost(rep): Ghost<Map<Seq<char>, (String, String)>>,
    mask: u32,
    fen: &str,
    depth: u32,
    inside: bool,
) -> (r: (Vec<(String, String)>, bool))
    requires
        user_map_ok(user@, rep),
    ensures
        r.1 == stays_inside(tree.transitions@, rep, mask as nat, fen@, depth as nat, inside),
        forall|j: int| 0 <= j < r.0@.len() ==> #[trigger] followed(tree.transitions@, rep, mask as nat, fen@, depth as nat, inside, r.0@[j].0@, r.0@[j].1@),
        forall|c: Seq<char>, s: Seq<char>|
            #[trigger] followed(tree.transitions@, rep, mask as nat, fen@, depth as nat, inside, c, s)
                ==> edges_view(r.0@).contains((c, s)),
        (edges_view(r.0@), r.1) == next_moves(tree.transitions@, rep, mask as nat, user@)(fen@, depth as nat, inside),
{
    let ghost opp = tree.transitions@;
    let opp_list = pairs_from(&tree.transitions, fen);
    if inside && depth < mask {
        let user_list = pairs_from(user, fen);
        let mut inter: Vec<(String, String)> = Vec::new();
        let mut i: usize = 0;
        while i < user_list.len()
            invariant
                i <= user_list@.len(),
                user_map_ok(user@, rep),
                edges_view(opp_list@) == edges_from(opp, fen@),
                edges_view(user_list@) == edges_from(user@, fen@),
                forall|j: int| 0 <= j < inter@.len() ==> user_edge(rep, fen@, #[trigger] inter@[j].0@, inter@[j].1@) && opp_child(opp, fen@, inter@[j].0@),
                forall|k: int| 0 <= k < i && opp_child(opp, fen@, #[trigger] user_list@[k].0@) ==> edges_view(inter@).contains((user_list@[k].0@, user_list@[k].1@)),
                edges_view(inter@) == kept_moves(opp, fen@, edges_view(user_list@).take(i as int)),
            decreases user_list@.len() - i,
        {
            let ghost before = inter@;
            let ghost uc = user_list@[i as int].0@;
            let ghost us = user_list@[i as int].1@;
            assert(edges_view(user_list@)[i as int] == (uc, us));
            assert(edges_from(user@, fen@).contains((uc, us)));
            let found = has_child(&opp_list, user_list[i].0.as_str());
            proof {
                if found {
                    let k = choose|k: int| 0 <= k < opp_list@.len() && #[trigger] opp_list@[k].0@ == uc;
                    assert(edges_view(opp_list@)[k] == (uc, opp_list@[k].1@));
                    assert(opp_edge(opp, fen@, uc, opp_list@[k].1@));
                } else {
                    if opp_child(opp, fen@, uc) {
                        let s2 = choose|s2: Seq<char>| #[trigger] opp_edge(opp, fen@, uc, s2);
                        let k = choose|k: int| 0 <= k < edges_view(opp_list@).len() && edges_view(opp_list@)[k] == (uc, s2);
                        assert(opp_list@[k].0@ == uc);
                    }
                }
            }
            proof {
                let pre = edges_view(user_list@).take(i as int);
                let post = edges_view(user_list@).take(i + 1);
                assert(post.drop_last() =~= pre);
                assert(post.last() == (uc, us));
                if found {
                    let k = choose|k: int| 0 <= k < opp_list@.len() && #[trigger] opp_list@[k].0@ == uc;
                    assert(opp_edge(opp, fen@, uc, opp_list@[k].1@));
                    assert(opp_child(opp, fen@, uc));
                }
                assert(kept_moves(opp, fen@, post) == if opp_child(opp, fen@, uc) { kept_moves(opp, fen@, pre).push((uc, us)) } else { kept_moves(opp, fen@, pre) });
            }
            if found {
                inter.push((user_list[i].0.clone(), user_list[i].1.clone()));
                proof {
                    assert(edges_view(inter@) == edges_view(before).push((uc, us)));
                    assert forall|k: int| 0 <= k < i + 1 && opp_child(opp, fen@, #[trigger] user_list@[k].0@) implies edges_view(inter@).contains((user_list@[k].0@, user_list@[k].1@)) by {
                        if k < i {
                            let j = choose|j: int| 0 <= j < edges_view(before).len() && edges_view(before)[j] == (user_list@[k].0@, user_list@[k].1@);
                            assert(edges_view(inter@)[j] == edges_view(before)[j]);
                        } else {
                            assert(edges_view(inter@)[before.len() as int] == (uc, us));
                        }
                    }
                }
            }
            i = i + 1;
        }
        proof {
            assert(edges_view(user_list@).take(user_list@.len() as int) =~= edges_view(user_list@));
            assert forall|c: Seq<char>, s: Seq<char>| user_edge(rep, fen@, c, s) && opp_child(opp, fen@, c) implies edges_view(inter@).contains((c, s)) by {
                assert(edges_from(user@, fen@).contains((c, s)));
                let k = choose|k: int| 0 <= k < edges_view(user_list@).len() && edges_view(user_list@)[k] == (c, s);
                assert(user_list@[k].0@ == c);
            }
        }
        if inter.len() > 0 {
            proof {
                assert(user_edge(rep, fen@, inter@[0].0@, inter@[0].1@) && opp_child(opp, fen@, inter@[0].0@));
                assert(shared_move(opp, rep, fen@));
                assert forall|j: int| 0 <= j < inter@.len() implies #[trigger] followed(opp, rep, mask as nat, fen@, depth as nat, inside, inter@[j].0@, inter@[j].1@) by {
                    assert(user_edge(rep, fen@, inter@[j].0@, inter@[j].1@));
                }
            }
            (inter, true)
        } else {
            proof {
                if shared_move(opp, rep, fen@) {
                    let (c, s) = choose|c: Seq<char>, s: Seq<char>| #[trigger] user_edge(rep, fen@, c, s) && opp_child(opp, fen@, c);
                    assert(edges_view(inter@).contains((c, s)));
                }
                assert forall|j: int| 0 <= j < opp_list@.len() implies #[trigger] followed(opp, rep, mask as nat, fen@, depth as nat, inside, opp_list@[j].0@, opp_list@[j].1@) by {
                    assert(edges_view(opp_list@)[j] == (opp_list@[j].0@, opp_list@[j].1@));
                }
            }
            (opp_list, false)
        }
    } else {
        proof {
            assert forall|j: int| 0 <= j < opp_list@.len() implies #[trigger] followed(opp, rep, mask as nat, fen@, depth as nat, inside, opp_list@[j].0@, opp_list@[j].1@) by {
                assert(edges_view(opp_list@)[j] == (opp_list@[j].0@, opp_list@[j].1@));
            }
        }
        (opp_list, false)
    }
}


/// The state of the walk: the explored positions (as a set and in order of
/// exploration), the parent entries, and the ghost bookkeeping of
/// [`explore_inv`].
struct Walk {
    visited: StringHashSet,
    order: Vec<String>,
    parents: StringHashMap<(String, String)>,
    label: Ghost<Map<Seq<char>, (nat, bool)>>,
    via: Ghost<Map<Seq<char>, (Seq<char>, Seq<char>)>>,
    rank: Ghost<Map<Seq<char>, nat>>,
    next_rank: Ghost<nat>,
    open: Ghost<Set<Seq<char>>>,
}

impl Walk {
    spec fn inv(&self, opp: Map<Seq<char>, Vec<(String, String)>>, rep: Map<Seq<char>, (String, String)>, mask: nat, maxd: nat) -> bool {
        &&& texts(self.order@).no_duplicates()
        &&& texts(self.order@).to_set() == self.visited@
        &&& explore_inv(opp, rep, mask, maxd, self.visited@, self.parents@, self.label@, self.via@, self.rank@, self.next_rank@, self.open@)
    }

    spec fn grew_from(&self, w: &Walk) -> bool {
        grows(w.visited@, w.parents@, w.label@, w.via@, w.rank@, self.visited@, self.parents@, self.label@, self.via@, self.rank@)
    }
}

proof fn lemma_extends_trans<K, V>(a: Map<K, V>, b: Map<K, V>, c: Map<K, V>)
    requires
        extends(a, b),
        extends(b, c),
    ensures
        extends(a, c),
{
    assert forall|k: K| #[trigger] a.contains_key(k) implies c.contains_key(k) && c[k] == a[k] by {
        assert(b.contains_key(k));
    }
}

/// Explores `fen`, reached at `depth` with the flag `inside`, from the
/// position and move `from` (none for the initial position).
fn explore(
    w: &mut Walk,
    tree: &OpponentTree,
    user: &StringHashMap<Vec<(String, String)>>,
    Ghost(rep): Ghost<Map<Seq<char>, (String, String)>>,
    mask: u32,
    max_depth: u32,
    fen: String,
    depth: u32,
    inside: bool,
    Ghost(from): Ghost<Option<(Seq<char>, Seq<char>)>>,
)
    requires
        old(w).inv(tree.transitions@, rep, mask as nat, max_depth as nat),
        user_map_ok(user@, rep),
        depth <= max_depth,
        from is None ==> {
            &&& fen@ == START_EPD@
            &&& depth == 0
            &&& inside
            &&& old(w).visited@ == Set::<Seq<char>>::empty()
            &&& old(w).parents@ == Map::<Seq<char>, (String, String)>::empty()
        },
        from matches Some(qs) ==> {
            let q = qs.0;
            let lq = old(w).label@[q];
            &&& old(w).visited@.contains(q)
            &&& followed(tree.transitions@, rep, mask as nat, q, lq.0, lq.1, fen@, qs.1)
            &&& depth == lq.0 + 1
            &&& inside == stays_inside(tree.transitions@, rep, mask as nat, q, lq.0, lq.1)
            &&& old(w).parents@.contains_key(fen@)
        },
    ensures
        final(w).inv(tree.transitions@, rep, mask as nat, max_depth as nat),
        final(w).open@ == old(w).open@,
        final(w).grew_from(old(w)),
        depth < max_depth ==> final(w).visited@.contains(fen@),
        (texts(final(w).order@), entries_view(final(w).parents@)) == walk(
            next_moves(tree.transitions@, rep, mask as nat, user@),
            max_depth as nat,
            fen@,
            depth as nat,
            inside,
            (texts(old(w).order@), entries_view(old(w).parents@)),
        ),
    decreases max_depth - depth,
{
    let ghost opp = tree.transitions@;
    let ghost maskn = mask as nat;
    let ghost maxd = max_depth as nat;
    let ghost next = next_moves(tree.transitions@, rep, mask as nat, user@);
    let ghost st0: WalkState = (texts(w.order@), entries_view(w.parents@));
    proof {
        assert(texts(w.order@).to_set().contains(fen@) == texts(w.order@).contains(fen@));
    }
    if depth >= max_depth || w.visited.contains(fen.as_str()) {
        return;
    }
    let ghost w0_visited = w.visited@;
    let ghost w0_parents = w.parents@;
    let ghost w0_label = w.label@;
    let ghost w0_via = w.via@;
    let ghost w0_rank = w.rank@;
    let ghost w0_open = w.open@;
    let ghost w0_order = texts(w.order@);
    // Enter `fen`.
    w.visited.insert(fen.clone());
    w.order.push(fen.clone());
    proof {
        assert(texts(w.order@) == w0_order.push(fen@));
        w0_order.lemma_push_to_set_commute(fen@);
        assert(!w0_order.contains(fen@));
        w.label@ = w.label@.insert(fen@, (depth as nat, inside));
        match from {
            Some(qs) => {
                w.via@ = w.via@.insert(fen@, qs);
            },
            None => {
                w.rank@ = w.rank@.insert(fen@, w.next_rank@);
                w.next_rank@ = w.next_rank@ + 1;
            },
        }
        w.open@ = w.open@.insert(fen@);
        assert(extends(w0_label, w.label@));
        assert(extends(w0_via, w.via@));
        assert(extends(w0_rank, w.rank@));
        assert forall|v: Seq<char>| #[trigger] w.visited@.contains(v) && v != START_EPD@ implies reached_via(opp, rep, maskn, w.visited@, w.label@, w.via@, v) by {
            if v != fen@ {
                assert(reached_via(opp, rep, maskn, w0_visited, w0_label, w0_via, v));
                let q = w0_via[v].0;
                assert(w.label@[q] == w0_label[q]);
            } else {
                let qs = from.unwrap();
                assert(w.label@[qs.0] == w0_label[qs.0]);
            }
        }
        assert forall|c: Seq<char>| #[trigger] w.parents@.contains_key(c) implies ({
            let p = w.parents@[c].0@;
            &&& w.visited@.contains(p)
            &&& followed(opp, rep, maskn, p, w.label@[p].0, w.label@[p].1, c, w.parents@[c].1@)
        }) by {
            let p = w.parents@[c].0@;
            assert(w.label@[p] == w0_label[p]);
        }
        assert forall|p: Seq<char>| #[trigger] w.visited@.contains(p) && !w.open@.contains(p) implies closed_at(opp, rep, maskn, maxd, w.visited@, w.parents@, w.label@, p) by {
            lemma_closed_grows(opp, rep, maskn, maxd, w0_visited, w0_parents, w0_label, w.visited@, w.parents@, w.label@, p);
        }
        assert(w.label@.dom() =~= w.visited@);
        assert(explore_inv(opp, rep, maskn, maxd, w.visited@, w.parents@, w.label@, w.via@, w.rank@, w.next_rank@, w.open@));
    }
    let ghost w1_visited = w.visited@;
    let ghost w1_parents = w.parents@;
    let ghost w1_label = w.label@;
    let ghost w1_via = w.via@;
    let ghost w1_rank = w.rank@;
    let (moves, next_inside) = followed_moves(tree, user, Ghost(rep), mask, fen.as_str(), depth, inside);
    let ghost mv = edges_view(moves@);
    let ghost target = walk_list(next, maxd, fen@, depth as nat, next_inside, mv, 0, (texts(w.order@), entries_view(w.parents@)));
    proof {
        assert(texts(w.order@) == st0.0.push(fen@));
        assert(entries_view(w.parents@) == st0.1);
        assert(!st0.0.contains(fen@));
        assert(walk(next, maxd, fen@, depth as nat, inside, st0) == target);
    }
    let mut i: usize = 0;
    while i < moves.len()
        invariant
            0 <= i <= moves@.len(),
            next == next_moves(opp, rep, maskn, user@),
            mv == edges_view(moves@),
            walk_list(next, maxd, fen@, depth as nat, next_inside, mv, i as nat, (texts(w.order@), entries_view(w.parents@))) == target,
            depth < max_depth,
            opp == tree.transitions@,
            maskn == mask as nat,
            maxd == max_depth as nat,
            user_map_ok(user@, rep),
            w.inv(opp, rep, maskn, maxd),
            w.open@ == w0_open.insert(fen@),
            grows(w1_visited, w1_parents, w1_label, w1_via, w1_rank, w.visited@, w.parents@, w.label@, w.via@, w.rank@),
            w1_visited.contains(fen@),
            w1_label.contains_key(fen@),
            w1_label[fen@] == (depth as nat, inside),
            next_inside == stays_inside(opp, rep, maskn, fen@, depth as nat, inside),
            forall|j: int| 0 <= j < moves@.len() ==> #[trigger] followed(opp, rep, maskn, fen@, depth as nat, inside, moves@[j].0@, moves@[j].1@),
            forall|j: int| 0 <= j < i ==> w.parents@.contains_key(#[trigger] moves@[j].0@) && (depth + 1 < max_depth ==> w.visited@.contains(moves@[j].0@)),
        decreases moves@.len() - i,
    {
        let c = moves[i].0.clone();
        let s = moves[i].1.clone();
        assert(c@ == moves@[i as int].0@ && s@ == moves@[i as int].1@);
        assert(followed(opp, rep, maskn, fen@, depth as nat, inside, moves@[i as int].0@, moves@[i as int].1@));
        assert(w.label@[fen@] == (depth as nat, inside));
        let ghost wa_visited = w.visited@;
        let ghost wa_parents = w.parents@;
        let ghost wa_label = w.label@;
        let ghost wa_via = w.via@;
        let ghost wa_rank = w.rank@;
        let ghost st_a: WalkState = (texts(w.order@), entries_view(w.parents@));
        proof {
            assert(mv[i as int] == (c@, s@));
            assert(entries_view(w.parents@).contains_key(c@) == w.parents@.contains_key(c@));
        }
        if !w.parents.contains_key(c.as_str()) {
            w.parents.insert(c.clone(), (fen.clone(), s.clone()));
            proof {
                if !w.rank@.contains_key(c@) {
                    w.rank@ = w.rank@.insert(c@, w.next_rank@);
                    w.next_rank@ = w.next_rank@ + 1;
                } else {
                    assert(wa_visited.contains(c@));
                    assert(c@ == START_EPD@);
                }
                assert(extends(wa_parents, w.parents@));
                assert(extends(wa_rank, w.rank@));
                assert forall|p: Seq<char>| #[trigger] w.visited@.contains(p) && !w.open@.contains(p) implies closed_at(opp, rep, maskn, maxd, w.visited@, w.parents@, w.label@, p) by {
                    assert(wa_visited.contains(p));
                    assert(closed_at(opp, rep, maskn, maxd, wa_visited, wa_parents, wa_label, p));
                    lemma_closed_grows(opp, rep, maskn, maxd, wa_visited, wa_parents, wa_label, w.visited@, w.parents@, w.label@, p);
                }
                assert forall|c2: Seq<char>| #[trigger] w.parents@.contains_key(c2) && c2 != START_EPD@ implies w.rank@[w.parents@[c2].0@] < w.rank@[c2] by {
                    if c2 != c@ {
                        assert(wa_parents.contains_key(c2));
                        assert(w.parents@[c2] == wa_parents[c2]);
                        let p2 = wa_parents[c2].0@;
                        assert(wa_visited.contains(p2));
                        assert(wa_rank.contains_key(p2));
                        assert(wa_rank.contains_key(c2));
                        assert(wa_rank[p2] < wa_rank[c2]);
                    } else {
                        assert(w.parents@[c2].0@ == fen@);
                        assert(wa_rank.contains_key(fen@));
                    }
                }
                assert(explore_inv(opp, rep, maskn, maxd, w.visited@, w.parents@, w.label@, w.via@, w.rank@, w.next_rank@, w.open@));
            }
        }
        let ghost st1: WalkState = if st_a.1.contains_key(c@) {
            st_a
        } else {
            (st_a.0, st_a.1.insert(c@, (fen@, s@)))
        };
        proof {
            assert(entries_view(w.parents@) =~= st1.1);
            assert(texts(w.order@) == st1.0);
        }
        let ghost wb_visited = w.visited@;
        let ghost wb_parents = w.parents@;
        let ghost wb_label = w.label@;
        let ghost wb_via = w.via@;
        let ghost wb_rank = w.rank@;
        explore(w, tree, user, Ghost(rep), mask, max_depth, c, depth + 1, next_inside, Ghost(Some((fen@, s@))));
        proof {
            assert(walk_list(next, maxd, fen@, depth as nat, next_inside, mv, i as nat, st_a)
                == walk_list(next, maxd, fen@, depth as nat, next_inside, mv, (i + 1) as nat, walk(next, maxd, c@, (depth + 1) as nat, next_inside, st1)));
            lemma_extends_trans(w1_parents, wa_parents, wb_parents);
            lemma_extends_trans(w1_parents, wb_parents, w.parents@);
            lemma_extends_trans(w1_label, wb_label, w.label@);
            lemma_extends_trans(w1_via, wb_via, w.via@);
            lemma_extends_trans(w1_rank, wa_rank, wb_rank);
            lemma_extends_trans(w1_rank, wb_rank, w.rank@);
            assert forall|j: int| 0 <= j < i + 1 implies w.parents@.contains_key(#[trigger] moves@[j].0@) && (depth + 1 < max_depth ==> w.visited@.contains(moves@[j].0@)) by {
                if j < i {
                    assert(wa_parents.contains_key(moves@[j].0@));
                    assert(wb_parents.contains_key(moves@[j].0@));
                    if depth + 1 < max_depth {
                        assert(wa_visited.contains(moves@[j].0@));
                    }
                } else {
                    assert(wb_parents.contains_key(c@));
                }
            }
        }
        i = i + 1;
    }
    proof {
        assert(w.label@[fen@] == (depth as nat, inside));
        assert forall|c: Seq<char>, s: Seq<char>| #[trigger] followed(opp, rep, maskn, fen@, w.label@[fen@].0, w.label@[fen@].1, c, s) implies w.parents@.contains_key(c) && (w.label@[fen@].0 + 1 < maxd ==> w.visited@.contains(c)) by {
            assert(edges_view(moves@).contains((c, s)));
            let j = choose|j: int| 0 <= j < edges_view(moves@).len() && edges_view(moves@)[j] == (c, s);
            assert(moves@[j].0@ == c);
        }
        assert(closed_at(opp, rep, maskn, maxd, w.visited@, w.parents@, w.label@, fen@));
        w.open@ = w.open@.remove(fen@);
        assert(w.open@ =~= w0_open);
        lemma_extends_trans(w0_label, w1_label, w.label@);
        lemma_extends_trans(w0_via, w1_via, w.via@);
        lemma_extends_trans(w0_rank, w1_rank, w.rank@);
        assert(extends(w0_parents, w1_parents));
        lemma_extends_trans(w0_parents, w1_parents, w.parents@);
    }
}


/// The positions a walk explored, and the parent entries it made.
pub struct ReachabilityResult {
    /// The explored positions, each once, in the order they were reached.
    pub positions: Vec<String>,
    /// For each position reached by a move (and each position a move led
    /// to at the depth limit): the position and move it was first reached
    /// from.
    pub parents: StringHashMap<(String, String)>,
}

/// `visited` and `parents` are what a walk from the initial position can
/// leave: there is a labelling of the positions with depths and inside
/// flags under which every followed move out of every position has been
/// taken (below the depth limit), every position was reached by a followed
/// move from a position one level up, and the parent entries point to
/// earlier positions.
pub open spec fn explored(
    opp: Map<Seq<char>, Vec<(String, String)>>,
    rep: Map<Seq<char>, (String, String)>,
    mask: nat,
    maxd: nat,
    visited: Set<Seq<char>>,
    parents: Map<Seq<char>, (String, String)>,
) -> bool {
    exists|label: Map<Seq<char>, (nat, bool)>, via: Map<Seq<char>, (Seq<char>, Seq<char>)>, rank: Map<Seq<char>, nat>, n: nat|
        #[trigger] explore_inv(opp, rep, mask, maxd, visited, parents, label, via, rank, n, Set::empty())
}

/// Walks the opponent's tree from the initial position.
pub struct ReachabilityEngine {
    /// Positions are explored at depths (in plies) below this one.
    pub max_depth: u8,
}

impl ReachabilityEngine {
    pub fn new(max_depth: u8) -> (r: Self)
        ensures
            r.max_depth == max_depth,
    {
        ReachabilityEngine { max_depth }
    }

    /// Plays the UCI move `uci` in the position whose text is `fen`: the
    /// EPD text of the result and the move's SAN, or `None` when the text is
    /// not a position or the move is not legal there.
    pub fn apply_uci(&self, fen: &str, uci: &str) -> (r: Option<(String, String)>)
        ensures
            r.is_some() == uci_successor(fen@, uci@).is_some(),
            r matches Some(p) ==> (p.0@, p.1@) == uci_successor(fen@, uci@).unwrap(),
    {
        play_uci(fen, uci)
    }

    /// The positions reachable with the user's repertoire against the
    /// opponent's tree: inside the repertoire and before `mask_depth`
    /// plies the walk follows the repertoire's moves that the opponent has
    /// also met, elsewhere every move of the opponent's tree.
    pub fn compute(&self, repertory: &RepertoryVisitor, opponent_tree: &OpponentTree, mask_depth: u32) -> (r: ReachabilityResult)
        requires
            repertory.wf(),
        ensures
            texts(r.positions@).no_duplicates(),
            self.max_depth > 0 ==> texts(r.positions@).contains(START_EPD@),
            self.max_depth == 0 ==> r.positions@.len() == 0 && r.parents@ == Map::<Seq<char>, (String, String)>::empty(),
            explored(opponent_tree.transitions@, repertory.parents@, mask_depth as nat, self.max_depth as nat, texts(r.positions@).to_set(), r.parents@),
            acyclic(opponent_tree.transitions@) ==> lines_end_at_start(texts(r.positions@), r.parents@),
            walk_result(opponent_tree.transitions@, repertory.parents@, mask_depth as nat, self.max_depth as nat, texts(r.positions@), entries_view(r.parents@)),
    {
        let ghost rep = repertory.parents@;
        // The repertoire's moves, from each position.
        let mut user: StringHashMap<Vec<(String, String)>> = StringHashMap::new();
        let mut k: usize = 0;
        while k < repertory.children.len()
            invariant
                repertory.wf(),
                rep == repertory.parents@,
                k <= repertory.children@.len(),
                forall|f: Seq<char>, c: Seq<char>, s: Seq<char>|
                    #![trigger edges_from(user@, f).contains((c, s))]
                    #![trigger user_edge(rep, f, c, s)]
                    edges_from(user@, f).contains((c, s)) <==> (user_edge(rep, f, c, s) && texts(repertory.children@).take(k as int).contains(c)),
            decreases repertory.children@.len() - k,
        {
            let c = &repertory.children[k];
            let ghost cv = c@;
            assert(texts(repertory.children@)[k as int] == cv);
            assert(texts(repertory.children@).to_set().contains(cv));
            assert(repertory.parents@.contains_key(cv));
            let entry = repertory.parents.get(c.as_str());
            let (p, s) = match entry {
                Some(e) => (e.0.clone(), e.1.clone()),
                None => {
                    assert(false);
                    (String::new(), String::new())
                },
            };
            let mut list = pairs_from(&user, p.as_str());
            let ghost before = edges_view(list@);
            let ghost user_before = user@;
            list.push((c.clone(), s.clone()));
            proof {
                assert(edges_view(list@) == before.push((cv, s@)));
            }
            user.insert(p.clone(), list);
            proof {
                let pre = texts(repertory.children@).take(k as int);
                let post = texts(repertory.children@).take(k + 1);
                assert(post == pre.push(cv));
                assert(!pre.contains(cv)) by {
                    if pre.contains(cv) {
                        let j = choose|j: int| 0 <= j < pre.len() && pre[j] == cv;
                        assert(texts(repertory.children@)[j] == texts(repertory.children@)[k as int]);
                    }
                }
                assert(rep[cv].0@ == p@ && rep[cv].1@ == s@);
                assert forall|f: Seq<char>, c2: Seq<char>, s2: Seq<char>|
                    #![trigger edges_from(user@, f).contains((c2, s2))]
                    #![trigger user_edge(rep, f, c2, s2)]
                    edges_from(user@, f).contains((c2, s2)) <==> (user_edge(rep, f, c2, s2) && post.contains(c2)) by {
                    let ih = edges_from(user_before, f).contains((c2, s2));
                    assert(ih <==> (user_edge(rep, f, c2, s2) && pre.contains(c2)));
                    assert(post.contains(c2) <==> (pre.contains(c2) || c2 == cv)) by {
                        if post.contains(c2) && c2 != cv {
                            let j = choose|j: int| 0 <= j < post.len() && post[j] == c2;
                            assert(j < pre.len());
                            assert(pre[j] == c2);
                        }
                        if pre.contains(c2) {
                            let j = choose|j: int| 0 <= j < pre.len() && pre[j] == c2;
                            assert(post[j] == c2);
                        }
                        if c2 == cv {
                            assert(post[pre.len() as int] == cv);
                        }
                    }
                    if f == p@ {
                        assert(edges_from(user@, f) == before.push((cv, s@)));
                        assert(edges_from(user_before, f) == before);
                        assert(before.push((cv, s@)).contains((c2, s2)) <==> (before.contains((c2, s2)) || (c2, s2) == (cv, s@))) by {
                            if before.push((cv, s@)).contains((c2, s2)) && (c2, s2) != (cv, s@) {
                                let j = choose|j: int| 0 <= j < before.push((cv, s@)).len() && before.push((cv, s@))[j] == (c2, s2);
                                assert(before[j] == (c2, s2));
                            }
                            if before.contains((c2, s2)) {
                                let j = choose|j: int| 0 <= j < before.len() && before[j] == (c2, s2);
                                assert(before.push((cv, s@))[j] == (c2, s2));
                            }
                            if (c2, s2) == (cv, s@) {
                                assert(before.push((cv, s@))[before.len() as int] == (c2, s2));
                            }
                        }
                    } else {
                        assert(edges_from(user@, f) == edges_from(user_before, f));
                    }
                }
            }
            k = k + 1;
        }
        proof {
            assert(texts(repertory.children@).take(repertory.children@.len() as int) == texts(repertory.children@));
            assert forall|f: Seq<char>, c: Seq<char>, s: Seq<char>|
                #![trigger edges_from(user@, f).contains((c, s))]
                #![trigger user_edge(rep, f, c, s)]
                edges_from(user@, f).contains((c, s)) <==> user_edge(rep, f, c, s) by {
                if user_edge(rep, f, c, s) {
                    assert(texts(repertory.children@).to_set().contains(c));
                }
            }
        }
        let mut w = Walk {
            visited: StringHashSet::new(),
            order: Vec::new(),
            parents: StringHashMap::new(),
            label: Ghost(Map::empty()),
            via: Ghost(Map::empty()),
            rank: Ghost(Map::empty()),
            next_rank: Ghost(0),
            open: Ghost(Set::empty()),
        };
        proof {
            assert(texts(w.order@).to_set() =~= w.visited@);
            assert(w.label@.dom() =~= w.visited@);
        }
        let max_depth = self.max_depth as u32;
        proof {
            assert(texts(w.order@) =~= Seq::<Seq<char>>::empty());
            assert(entries_view(w.parents@) =~= Map::<Seq<char>, (Seq<char>, Seq<char>)>::empty());
        }
        explore(&mut w, opponent_tree, &user, Ghost(rep), mask_depth, max_depth, String::from_str(START_EPD), 0, true, Ghost(None));
        proof {
            assert(explore_inv(opponent_tree.transitions@, rep, mask_depth as nat, max_depth as nat, w.visited@, w.parents@, w.label@, w.via@, w.rank@, w.next_rank@, Set::empty()));
            if max_depth == 0 {
                assert(w.visited@ =~= Set::empty());
                assert(texts(w.order@).len() == 0) by {
                    if texts(w.order@).len() > 0 {
                        assert(texts(w.order@).to_set().contains(texts(w.order@)[0]));
                    }
                }
            } else {
                assert(texts(w.order@).to_set().contains(START_EPD@));
            }
            assert(explored(opponent_tree.transitions@, rep, mask_depth as nat, max_depth as nat, texts(w.order@).to_set(), w.parents@));
            assert(walk_from_start(opponent_tree.transitions@, rep, mask_depth as nat, max_depth as nat, user@) == (texts(w.order@), entries_view(w.parents@)));
            if acyclic(opponent_tree.transitions@) {
                lemma_acyclic_tree_lines_end_at_start(opponent_tree.transitions@, rep, mask_depth as nat, max_depth as nat, texts(w.order@), w.parents@);
            }
        }
        ReachabilityResult { positions: w.order, parents: w.parents }
    }
}


/// A followed move is a move of the opponent's tree.
proof fn lemma_followed_is_opponent_move(
    opp: Map<Seq<char>, Vec<(String, String)>>,
    rep: Map<Seq<char>, (String, String)>,
    mask: nat,
    f: Seq<char>,
    d: nat,
    inside: bool,
    c: Seq<char>,
    s: Seq<char>,
)
    requires
        followed(opp, rep, mask, f, d, inside, c, s),
    ensures
        opp_child(opp, f, c),
{
    if !stays_inside(opp, rep, mask, f, d, inside) {
        assert(opp_edge(opp, f, c, s));
    }
}

/// Every explored position other than the initial one is reached by a
/// move of the opponent's tree from another explored position, and every
/// parent entry is such a move, by the opponent's move or the
/// repertoire's.
pub proof fn lemma_explored_follows_opponent_moves(
    opp: Map<Seq<char>, Vec<(String, String)>>,
    rep: Map<Seq<char>, (String, String)>,
    mask: nat,
    maxd: nat,
    visited: Set<Seq<char>>,
    parents: Map<Seq<char>, (String, String)>,
)
    requires
        explored(opp, rep, mask, maxd, visited, parents),
    ensures
        forall|v: Seq<char>| #[trigger] visited.contains(v) && v != START_EPD@ ==> exists|q: Seq<char>| visited.contains(q) && #[trigger] opp_child(opp, q, v),
        forall|c: Seq<char>| #[trigger] parents.contains_key(c) ==> {
            let p = parents[c].0@;
            let s = parents[c].1@;
            &&& visited.contains(p)
            &&& opp_child(opp, p, c)
            &&& (opp_edge(opp, p, c, s) || user_edge(rep, p, c, s))
        },
{
    let (label, via, rank, n) = choose|label: Map<Seq<char>, (nat, bool)>, via: Map<Seq<char>, (Seq<char>, Seq<char>)>, rank: Map<Seq<char>, nat>, n: nat|
        #[trigger] explore_inv(opp, rep, mask, maxd, visited, parents, label, via, rank, n, Set::empty());
    assert forall|v: Seq<char>| #[trigger] visited.contains(v) && v != START_EPD@ implies exists|q: Seq<char>| visited.contains(q) && #[trigger] opp_child(opp, q, v) by {
        assert(reached_via(opp, rep, mask, visited, label, via, v));
        let q = via[v].0;
        lemma_followed_is_opponent_move(opp, rep, mask, q, label[q].0, label[q].1, v, via[v].1);
    }
    assert forall|c: Seq<char>| #[trigger] parents.contains_key(c) implies ({
        let p = parents[c].0@;
        let s = parents[c].1@;
        &&& visited.contains(p)
        &&& opp_child(opp, p, c)
        &&& (opp_edge(opp, p, c, s) || user_edge(rep, p, c, s))
    }) by {
        let p = parents[c].0@;
        lemma_followed_is_opponent_move(opp, rep, mask, p, label[p].0, label[p].1, c, parents[c].1@);
    }
}

/// `v` is `n` moves of the opponent's tree away from the initial position.
pub open spec fn opp_reach(opp: Map<Seq<char>, Vec<(String, String)>>, v: Seq<char>, n: nat) -> bool
    decreases n,
{
    if n == 0 {
        v == START_EPD@
    } else {
        exists|q: Seq<char>| opp_reach(opp, q, (n - 1) as nat) && #[trigger] opp_child(opp, q, v)
    }
}

proof fn lemma_label_is_distance(
    opp: Map<Seq<char>, Vec<(String, String)>>,
    rep: Map<Seq<char>, (String, String)>,
    mask: nat,
    maxd: nat,
    visited: Set<Seq<char>>,
    parents: Map<Seq<char>, (String, String)>,
    label: Map<Seq<char>, (nat, bool)>,
    via: Map<Seq<char>, (Seq<char>, Seq<char>)>,
    rank: Map<Seq<char>, nat>,
    n: nat,
    v: Seq<char>,
)
    requires
        explore_inv(opp, rep, mask, maxd, visited, parents, label, via, rank, n, Set::empty()),
        visited.contains(v),
    ensures
        opp_reach(opp, v, label[v].0),
    decreases label[v].0,
{
    if v != START_EPD@ {
        assert(reached_via(opp, rep, mask, visited, label, via, v));
        let q = via[v].0;
        lemma_label_is_distance(opp, rep, mask, maxd, visited, parents, label, via, rank, n, q);
        lemma_followed_is_opponent_move(opp, rep, mask, q, label[q].0, label[q].1, v, via[v].1);
        assert(opp_reach(opp, q, (label[v].0 - 1) as nat) && opp_child(opp, q, v));
    }
}

/// Every explored position lies fewer than `maxd` moves of the opponent's
/// tree away from the initial position.
pub proof fn lemma_explored_within_depth(
    opp: Map<Seq<char>, Vec<(String, String)>>,
    rep: Map<Seq<char>, (String, String)>,
    mask: nat,
    maxd: nat,
    visited: Set<Seq<char>>,
    parents: Map<Seq<char>, (String, String)>,
    v: Seq<char>,
)
    requires
        explored(opp, rep, mask, maxd, visited, parents),
        visited.contains(v),
    ensures
        exists|d: nat| d < maxd && opp_reach(opp, v, d),
{
    let (label, via, rank, n) = choose|label: Map<Seq<char>, (nat, bool)>, via: Map<Seq<char>, (Seq<char>, Seq<char>)>, rank: Map<Seq<char>, nat>, n: nat|
        #[trigger] explore_inv(opp, rep, mask, maxd, visited, parents, label, via, rank, n, Set::empty());
    lemma_label_is_distance(opp, rep, mask, maxd, visited, parents, label, via, rank, n, v);
}

proof fn lemma_chain_by_rank(
    opp: Map<Seq<char>, Vec<(String, String)>>,
    rep: Map<Seq<char>, (String, String)>,
    mask: nat,
    maxd: nat,
    visited: Set<Seq<char>>,
    parents: Map<Seq<char>, (String, String)>,
    label: Map<Seq<char>, (nat, bool)>,
    via: Map<Seq<char>, (Seq<char>, Seq<char>)>,
    rank: Map<Seq<char>, nat>,
    nr: nat,
    v: Seq<char>,
) -> (n: nat)
    requires
        explore_inv(opp, rep, mask, maxd, visited, parents, label, via, rank, nr, Set::empty()),
        !parents.contains_key(START_EPD@),
        visited.contains(v),
    ensures
        chain_ends(parents, v, n),
        ancestor(parents, v, n) == START_EPD@,
        forall|k: nat| k <= n ==> visited.contains(#[trigger] ancestor(parents, v, k)),
        forall|i: nat, j: nat| i < j <= n ==> rank[#[trigger] ancestor(parents, v, j)] < rank[#[trigger] ancestor(parents, v, i)],
    decreases rank[v],
{
    if v == START_EPD@ {
        assert(ancestor(parents, v, 0) == v);
        assert forall|k: nat| k <= 0 implies visited.contains(#[trigger] ancestor(parents, v, k)) by {}
        0
    } else {
        assert(parents.contains_key(v));
        let p = parents[v].0@;
        assert(rank.contains_key(v));
        let m = lemma_chain_by_rank(opp, rep, mask, maxd, visited, parents, label, via, rank, nr, p);
        assert forall|k: nat| 0 < k <= m + 1 implies ancestor(parents, v, k) == ancestor(parents, p, (k - 1) as nat) by {}
        assert(ancestor(parents, v, m + 1) == ancestor(parents, p, m));
        assert forall|k: nat| k < m + 1 implies parents.contains_key(#[trigger] ancestor(parents, v, k)) by {
            if k > 0 {
                assert(ancestor(parents, v, k) == ancestor(parents, p, (k - 1) as nat));
            }
        }
        assert forall|k: nat| k <= m + 1 implies visited.contains(#[trigger] ancestor(parents, v, k)) by {
            if k > 0 {
                assert(ancestor(parents, v, k) == ancestor(parents, p, (k - 1) as nat));
            }
        }
        assert forall|i: nat, j: nat| i < j <= m + 1 implies rank[#[trigger] ancestor(parents, v, j)] < rank[#[trigger] ancestor(parents, v, i)] by {
            assert(ancestor(parents, v, j) == ancestor(parents, p, (j - 1) as nat));
            if i > 0 {
                assert(ancestor(parents, v, i) == ancestor(parents, p, (i - 1) as nat));
            } else {
                assert(ancestor(parents, v, 0) == v);
                if j - 1 > 0 {
                    assert(rank[ancestor(parents, p, (j - 1) as nat)] < rank[ancestor(parents, p, 0)]);
                }
            }
        }
        m + 1
    }
}

/// `n + 1` positions, pairwise distinct, of a finite set: the set has at
/// least `n + 1` elements.
proof fn lemma_distinct_ancestors_fit(
    parents: Map<Seq<char>, (String, String)>,
    v: Seq<char>,
    n: nat,
    s: Set<Seq<char>>,
    rank: Map<Seq<char>, nat>,
)
    requires
        s.finite(),
        forall|k: nat| k <= n ==> s.contains(#[trigger] ancestor(parents, v, k)),
        forall|i: nat, j: nat| i < j <= n ==> rank[#[trigger] ancestor(parents, v, j)] < rank[#[trigger] ancestor(parents, v, i)],
    ensures
        n + 1 <= s.len(),
    decreases n,
{
    let a = ancestor(parents, v, n);
    assert(s.contains(a));
    if n > 0 {
        let s2 = s.remove(a);
        assert forall|k: nat| k <= (n - 1) as nat implies s2.contains(#[trigger] ancestor(parents, v, k)) by {
            assert(rank[ancestor(parents, v, n)] < rank[ancestor(parents, v, k)]);
        }
        lemma_distinct_ancestors_fit(parents, v, (n - 1) as nat, s2, rank);
    }
    assert(s.remove(a).len() + 1 == s.len());
}

/// When no parent entry points back to the initial position, the parent
/// entries lead every explored position back to the initial position, in
/// fewer steps than there are explored positions.
pub proof fn lemma_lines_lead_to_start(
    opp: Map<Seq<char>, Vec<(String, String)>>,
    rep: Map<Seq<char>, (String, String)>,
    mask: nat,
    maxd: nat,
    positions: Seq<Seq<char>>,
    parents: Map<Seq<char>, (String, String)>,
    v: Seq<char>,
)
    requires
        explored(opp, rep, mask, maxd, positions.to_set(), parents),
        positions.no_duplicates(),
        !parents.contains_key(START_EPD@),
        positions.contains(v),
    ensures
        exists|n: nat| n < positions.len() && chain_ends(parents, v, n) && ancestor(parents, v, n) == START_EPD@
            && forall|k: nat| k <= n ==> positions.contains(#[trigger] ancestor(parents, v, k)),
{
    let visited = positions.to_set();
    let (label, via, rank, nr) = choose|label: Map<Seq<char>, (nat, bool)>, via: Map<Seq<char>, (Seq<char>, Seq<char>)>, rank: Map<Seq<char>, nat>, n: nat|
        #[trigger] explore_inv(opp, rep, mask, maxd, visited, parents, label, via, rank, n, Set::empty());
    let n = lemma_chain_by_rank(opp, rep, mask, maxd, visited, parents, label, via, rank, nr, v);
    positions.unique_seq_to_set();
    vstd::seq_lib::seq_to_set_is_finite(positions);
    lemma_distinct_ancestors_fit(parents, v, n, visited, rank);
    assert forall|k: nat| k <= n implies positions.contains(#[trigger] ancestor(parents, v, k)) by {
        assert(visited.contains(ancestor(parents, v, k)));
    }
}

/// `v` is `n` moves of the opponent's tree away from `u`.
pub open spec fn opp_path(opp: Map<Seq<char>, Vec<(String, String)>>, u: Seq<char>, v: Seq<char>, n: nat) -> bool
    decreases n,
{
    if n == 0 {
        u == v
    } else {
        exists|q: Seq<char>| opp_path(opp, u, q, (n - 1) as nat) && #[trigger] opp_child(opp, q, v)
    }
}

/// No position of the opponent's tree comes back to itself by its moves.
pub open spec fn acyclic(opp: Map<Seq<char>, Vec<(String, String)>>) -> bool {
    forall|v: Seq<char>, n: nat| n > 0 ==> !#[trigger] opp_path(opp, v, v, n)
}

proof fn lemma_reach_is_path(opp: Map<Seq<char>, Vec<(String, String)>>, v: Seq<char>, n: nat)
    requires
        opp_reach(opp, v, n),
    ensures
        opp_path(opp, START_EPD@, v, n),
    decreases n,
{
    if n > 0 {
        let q = choose|q: Seq<char>| opp_reach(opp, q, (n - 1) as nat) && #[trigger] opp_child(opp, q, v);
        lemma_reach_is_path(opp, q, (n - 1) as nat);
    }
}

/// Every position other than the initial one has a parent entry, none
/// points back to the initial position, and from every position the
/// entries lead, through positions of the list, to the initial position,
/// in fewer steps than there are positions.
pub open spec fn lines_end_at_start(positions: Seq<Seq<char>>, parents: Map<Seq<char>, (String, String)>) -> bool {
    &&& !parents.contains_key(START_EPD@)
    &&& forall|v: Seq<char>| #[trigger] positions.contains(v) && v != START_EPD@ ==> parents.contains_key(v)
    &&& forall|v: Seq<char>| #[trigger] positions.contains(v) ==> exists|n: nat|
        n < positions.len() && chain_ends(parents, v, n) && ancestor(parents, v, n) == START_EPD@
            && forall|k: nat| k <= n ==> positions.contains(#[trigger] ancestor(parents, v, k))
}

/// When the opponent's tree has no cycle, the lines of a walk end at the
/// initial position: no parent entry for it, one for every other explored
/// position, and every chain of entries leads back to it through explored
/// positions.
pub proof fn lemma_acyclic_tree_lines_end_at_start(
    opp: Map<Seq<char>, Vec<(String, String)>>,
    rep: Map<Seq<char>, (String, String)>,
    mask: nat,
    maxd: nat,
    positions: Seq<Seq<char>>,
    parents: Map<Seq<char>, (String, String)>,
)
    requires
        explored(opp, rep, mask, maxd, positions.to_set(), parents),
        positions.no_duplicates(),
        acyclic(opp),
    ensures
        lines_end_at_start(positions, parents),
{
    let visited = positions.to_set();
    lemma_explored_follows_opponent_moves(opp, rep, mask, maxd, visited, parents);
    if parents.contains_key(START_EPD@) {
        let p = parents[START_EPD@].0@;
        assert(visited.contains(p) && opp_child(opp, p, START_EPD@));
        lemma_explored_within_depth(opp, rep, mask, maxd, visited, parents, p);
        let d = choose|d: nat| d < maxd && opp_reach(opp, p, d);
        lemma_reach_is_path(opp, p, d);
        assert(opp_path(opp, START_EPD@, START_EPD@, d + 1));
        assert(!opp_path(opp, START_EPD@, START_EPD@, d + 1));
    }
    let (label, via, rank, nr) = choose|label: Map<Seq<char>, (nat, bool)>, via: Map<Seq<char>, (Seq<char>, Seq<char>)>, rank: Map<Seq<char>, nat>, n: nat|
        #[trigger] explore_inv(opp, rep, mask, maxd, visited, parents, label, via, rank, n, Set::empty());
    assert forall|v: Seq<char>| #[trigger] positions.contains(v) && v != START_EPD@ implies parents.contains_key(v) by {
        assert(visited.contains(v));
    }
    assert forall|v: Seq<char>| #[trigger] positions.contains(v) implies exists|n: nat|
        n < positions.len() && chain_ends(parents, v, n) && ancestor(parents, v, n) == START_EPD@
            && forall|k: nat| k <= n ==> positions.contains(#[trigger] ancestor(parents, v, k)) by {
        lemma_lines_lead_to_start(opp, rep, mask, maxd, positions, parents, v);
    }
}

} // verus!
