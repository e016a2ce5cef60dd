//! The opponent's tree: how often the opponent's games passed through each
//! position, and the moves played from it.
//!
//! The tree is filled by [`PgnVisitor`], which receives the events of a
//! PGN reader one by one and replays each move with the rules of chess.

use vstd::prelude::*;
use vstd::hash_map::StringHashMap;
use vstd::string::StringExecFns;
use crate::chess::{START_EPD, play_san, san_successor};
use vstd::utf8::encode_utf8;

verus! {

pub struct OpponentTree {
    /// For each position (EPD text): the number of moves played from it in
    /// the opponent's games.
    pub positions: StringHashMap<u32>,
    /// For each position: the (child position, SAN move) pairs played
    /// from it, each pair once.
    pub transitions: StringHashMap<Vec<(String, String)>>,
}

/// The number of moves that the opponent's games played from `fen`.
pub open spec fn count_of(counts: Map<Seq<char>, u32>, fen: Seq<char>) -> u32 {
    if counts.contains_key(fen) {
        counts[fen]
    } else {
        0
    }
}

/// A list of (position, move) pairs, as texts.
pub open spec fn edges_view(v: Seq<(String, String)>) -> Seq<(Seq<char>, Seq<char>)> {
    v.map_values(|e: (String, String)| (e.0@, e.1@))
}

/// The (child, move) pairs recorded from `fen`, as texts.
pub open spec fn edges_from(trans: Map<Seq<char>, Vec<(String, String)>>, fen: Seq<char>) -> Seq<
    (Seq<char>, Seq<char>),
> {
    if trans.contains_key(fen) {
        edges_view(trans[fen]@)
    } else {
        Seq::empty()
    }
}

/// The tree's invariant: a position has recorded moves exactly when moves
/// were counted from it, each pair is recorded once, and there are never
/// more distinct moves from a position than moves counted from it.
pub open spec fn tree_wf(counts: Map<Seq<char>, u32>, trans: Map<Seq<char>, Vec<(String, String)>>) -> bool {
    &&& counts.dom() == trans.dom()
    &&& forall|f: Seq<char>| #[trigger]
        trans.contains_key(f) ==> {
            &&& edges_view(trans[f]@).no_duplicates()
            &&& 0 < edges_view(trans[f]@).len() <= counts[f]
        }
}

/// A position never has more distinct recorded moves than moves counted
/// from it, and has recorded moves exactly when it has a count.
pub proof fn lemma_distinct_moves_within_count(t: &OpponentTree, f: Seq<char>)
    requires
        t.wf(),
    ensures
        t.edges(f).len() <= count_of(t.positions@, f),
        t.edges(f).len() > 0 <==> t.positions@.contains_key(f),
{
}

impl OpponentTree {
    pub open spec fn wf(&self) -> bool {
        tree_wf(self.positions@, self.transitions@)
    }

    /// The (child, move) pairs recorded from `fen`.
    pub open spec fn edges(&self, fen: Seq<char>) -> Seq<(Seq<char>, Seq<char>)> {
        edges_from(self.transitions@, fen)
    }

    /// An empty tree.
    pub fn new() -> (t: Self)
        ensures
            t.positions@ == Map::<Seq<char>, u32>::empty(),
            t.transitions@ == Map::<Seq<char>, Vec<(String, String)>>::empty(),
            t.wf(),
    {
        OpponentTree { positions: StringHashMap::new(), transitions: StringHashMap::new() }
    }

    /// How many moves the opponent's games played from `fen` (0 for a
    /// position they never reached).
    pub fn get_count(&self, fen: &str) -> (r: u32)
        ensures
            r == count_of(self.positions@, fen@),
    {
        match self.positions.get(fen) {
            Some(c) => *c,
            None => 0,
        }
    }

    /// Records one more move from `parent`, to `child` by `san`: the count
    /// of `parent` goes up by one and the pair is added unless present.
    fn record(&mut self, parent: &str, child: String, san: String)
        requires
            old(self).wf(),
            count_of(old(self).positions@, parent@) < u32::MAX,
        ensures
            final(self).wf(),
            final(self).positions@ == old(self).positions@.insert(
                parent@,
                (count_of(old(self).positions@, parent@) + 1) as u32,
            ),
            forall|f: Seq<char>| f != parent@ ==> #[trigger] final(self).edges(f) == old(self).edges(f),
            final(self).edges(parent@).to_set() == old(self).edges(parent@).to_set().insert(
                (child@, san@),
            ),
            old(self).edges(parent@).is_prefix_of(final(self).edges(parent@)),
    {
        let count = self.get_count(parent);
        let mut list: Vec<(String, String)> = match self.transitions.get(parent) {
            Some(v) => clone_pairs(v),
            None => Vec::new(),
        };
        let ghost old_list = list@;
        assert(edges_view(old_list) == old(self).edges(parent@));
        let mut found = false;
        let mut i: usize = 0;
        while i < list.len()
            invariant
                i <= list@.len(),
                list@ == old_list,
                found == exists|k: int| 0 <= k < i && edges_view(list@)[k] == (child@, san@),
            decreases list@.len() - i,
        {
            let same = crate::text::str_eq(list[i].0.as_str(), child.as_str()) && crate::text::str_eq(
                list[i].1.as_str(),
                san.as_str(),
            );
            if same {
                found = true;
            }
            proof {
                if same {
                    assert(edges_view(list@)[i as int] == (child@, san@));
                }
            }
            i = i + 1;
        }
        if !found {
            list.push((child, san));
            proof {
                assert(edges_view(list@) == edges_view(old_list).push((child@, san@)));
                assert(!edges_view(old_list).contains((child@, san@)));
            }
        }
        proof {
            if found {
                assert(edges_view(old_list).contains((child@, san@)));
                assert(edges_view(list@).to_set() =~= edges_view(old_list).to_set().insert((child@, san@)));
            } else {
                edges_view(old_list).lemma_push_to_set_commute((child@, san@));
            }
            assert(edges_view(list@).len() <= count + 1);
        }
        let p1 = String::from_str(parent);
        let p2 = String::from_str(parent);
        self.positions.insert(p1, count + 1);
        self.transitions.insert(p2, list);
        proof {
            assert(edges_view(list@).len() > 0);
            assert(self.edges(parent@) == edges_view(list@));
            assert forall|f: Seq<char>| f != parent@ implies #[trigger] self.edges(f) == old(self).edges(f) by {}
            assert(self.positions@.dom() =~= self.transitions@.dom());
        }
    }
}

/// A copy of a list of text pairs.
pub(crate) fn clone_pairs(v: &Vec<(String, String)>) -> (r: Vec<(String, String)>)
    ensures
        r@ == v@,
{
    let mut r: Vec<(String, String)> = Vec::new();
    let mut i: usize = 0;
    while i < v.len()
        invariant
            i <= v@.len(),
            r@ == v@.take(i as int),
        decreases v@.len() - i,
    {
        r.push((v[i].0.clone(), v[i].1.clone()));
        proof {
            assert(v@.take(i + 1) == v@.take(i as int).push(v@[i as int]));
        }
        i = i + 1;
    }
    proof {
        assert(v@.take(v@.len() as int) == v@);
    }
    r
}

/// The colour that the opponent plays in the game being read.
#[derive(Debug, Clone, Copy, PartialEq, Eq)]
pub enum Side {
    White,
    Black,
}

/// Builds an [`OpponentTree`] from the events of a PGN reader: tags, SAN
/// moves and the end of each game.
pub struct PgnVisitor {
    /// The current position, as EPD text.
    pub position: String,
    pub tree: OpponentTree,
    pub opponent_name: String,
    pub opponent_color: Option<Side>,
}

impl PgnVisitor {
    pub open spec fn wf(&self) -> bool {
        self.tree.wf()
    }

    /// A visitor at the initial position, with an empty tree.
    pub fn new(opponent_name: String) -> (v: Self)
        ensures
            v.wf(),
            v.position@ == START_EPD@,
            v.tree.positions@ == Map::<Seq<char>, u32>::empty(),
            v.tree.transitions@ == Map::<Seq<char>, Vec<(String, String)>>::empty(),
            v.opponent_name == opponent_name,
            v.opponent_color is None,
    {
        PgnVisitor {
            position: String::from_str(START_EPD),
            tree: OpponentTree::new(),
            opponent_name,
            opponent_color: None,
        }
    }

    /// A tag pair: the `White` tag tells which colour the opponent plays.
    pub fn tag(&mut self, name: &[u8], value: &[u8])
        ensures
            final(self).position == old(self).position,
            final(self).tree == old(self).tree,
            final(self).opponent_name == old(self).opponent_name,
            name@ == encode_utf8("White"@) ==> final(self).opponent_color == Some(
                if value@ == encode_utf8(old(self).opponent_name@) {
                    Side::White
                } else {
                    Side::Black
                },
            ),
            name@ != encode_utf8("White"@) ==> final(self).opponent_color == old(self).opponent_color,
    {
        if crate::text::bytes_eq(name, "White".as_bytes()) {
            if crate::text::bytes_eq(value, self.opponent_name.as_str().as_bytes()) {
                self.opponent_color = Some(Side::White);
            } else {
                self.opponent_color = Some(Side::Black);
            }
        }
    }

    /// A move in SAN.  When it is legal in the current position, one more
    /// move is counted from that position, the pair (new position, move) is
    /// recorded from it, the new position becomes current, and the answer
    /// is `true`.  Otherwise nothing changes and the answer is `false`:
    /// the reading of this game stops there.
    pub fn san(&mut self, san: &str) -> (go_on: bool)
        requires
            old(self).wf(),
            count_of(old(self).tree.positions@, old(self).position@) < u32::MAX,
        ensures
            final(self).wf(),
            final(self).opponent_name == old(self).opponent_name,
            final(self).opponent_color == old(self).opponent_color,
            go_on == san_successor(old(self).position@, san@).is_some(),
            !go_on ==> final(self).position == old(self).position && final(self).tree
                == old(self).tree,
            go_on ==> {
                let p = old(self).position@;
                let c = san_successor(p, san@).unwrap();
                &&& final(self).position@ == c
                &&& final(self).tree.positions@ == old(self).tree.positions@.insert(
                    p,
                    (count_of(old(self).tree.positions@, p) + 1) as u32,
                )
                &&& forall|f: Seq<char>| f != p ==> #[trigger] final(self).tree.edges(f)
                    == old(self).tree.edges(f)
                &&& final(self).tree.edges(p).to_set() == old(self).tree.edges(p).to_set().insert(
                    (c, san@),
                )
            },
    {
        match play_san(self.position.as_str(), san) {
            None => false,
            Some(child) => {
                let parent = self.position.clone();
                self.tree.record(parent.as_str(), child.clone(), String::from_str(san));
                self.position = child;
                true
            },
        }
    }

    /// The end of a game: back to the initial position.
    pub fn end_game(&mut self)
        ensures
            final(self).position@ == START_EPD@,
            final(self).tree == old(self).tree,
            final(self).opponent_name == old(self).opponent_name,
            final(self).opponent_color == old(self).opponent_color,
    {
        self.position = String::from_str(START_EPD);
    }
}

/// An event of a PGN game, as a PGN reader reports it to the tree's
/// visitor: a tag pair, or a move in SAN.
#[derive(Debug, Clone, PartialEq)]
pub enum GameEvent {
    Tag(Vec<u8>, Vec<u8>),
    San(String),
}

/// A move played: the position before, the position after, the SAN.
pub type PlayedMove = (Seq<char>, Seq<char>, Seq<char>);

/// The moves of a game's events played from `pos`, up to the first move
/// that cannot be played.
pub open spec fn game_moves(pos: Seq<char>, evs: Seq<GameEvent>) -> Seq<PlayedMove>
    decreases evs.len(),
{
    if evs.len() == 0 {
        Seq::empty()
    } else {
        match evs[0] {
            GameEvent::Tag(_, _) => game_moves(pos, evs.drop_first()),
            GameEvent::San(s) => match san_successor(pos, s@) {
                Some(c) => seq![(pos, c, s@)] + game_moves(c, evs.drop_first()),
                None => Seq::empty(),
            },
        }
    }
}

/// Every move of the events can be played, in turn, from `pos`.
pub open spec fn game_finished(pos: Seq<char>, evs: Seq<GameEvent>) -> bool
    decreases evs.len(),
{
    if evs.len() == 0 {
        true
    } else {
        match evs[0] {
            GameEvent::Tag(_, _) => game_finished(pos, evs.drop_first()),
            GameEvent::San(s) => match san_successor(pos, s@) {
                Some(c) => game_finished(c, evs.drop_first()),
                None => false,
            },
        }
    }
}

/// The position reached from `pos` by the moves that can be played.
pub open spec fn game_reach(pos: Seq<char>, evs: Seq<GameEvent>) -> Seq<char>
    decreases evs.len(),
{
    if evs.len() == 0 {
        pos
    } else {
        match evs[0] {
            GameEvent::Tag(_, _) => game_reach(pos, evs.drop_first()),
            GameEvent::San(s) => match san_successor(pos, s@) {
                Some(c) => game_reach(c, evs.drop_first()),
                None => pos,
            },
        }
    }
}

/// The moves played when the games are read in turn from the initial
/// position, and the position the next game starts from: a game whose
/// moves can all be played ends, and the next starts from the initial
/// position; a game stopped at a move that cannot be played leaves its
/// position to the next.
pub open spec fn replay(games: Seq<Seq<GameEvent>>) -> (Seq<PlayedMove>, Seq<char>)
    decreases games.len(),
{
    if games.len() == 0 {
        (Seq::empty(), START_EPD@)
    } else {
        let (ms, pos) = replay(games.drop_last());
        let g = games.last();
        (ms + game_moves(pos, g), if game_finished(pos, g) { START_EPD@ } else { game_reach(pos, g) })
    }
}

/// How many of the moves `ms` were played from `p`.
pub open spec fn moves_from(ms: Seq<PlayedMove>, p: Seq<char>) -> nat
    decreases ms.len(),
{
    if ms.len() == 0 {
        0
    } else {
        moves_from(ms.drop_last(), p) + if ms.last().0 == p { 1nat } else { 0nat }
    }
}

/// The (position after, SAN) pairs of the moves `ms` played from `p`.
pub open spec fn moves_set(ms: Seq<PlayedMove>, p: Seq<char>) -> Set<(Seq<char>, Seq<char>)>
    decreases ms.len(),
{
    if ms.len() == 0 {
        Set::empty()
    } else {
        let r = moves_set(ms.drop_last(), p);
        if ms.last().0 == p {
            r.insert((ms.last().1, ms.last().2))
        } else {
            r
        }
    }
}

/// The number of events of the games.
pub open spec fn events_total(games: Seq<Seq<GameEvent>>) -> nat
    decreases games.len(),
{
    if games.len() == 0 {
        0
    } else {
        events_total(games.drop_last()) + games.last().len()
    }
}

/// The moves of all the games, each played from the initial position.
pub open spec fn games_moves(games: Seq<Seq<GameEvent>>) -> Seq<PlayedMove>
    decreases games.len(),
{
    if games.len() == 0 {
        Seq::empty()
    } else {
        games_moves(games.drop_last()) + game_moves(START_EPD@, games.last())
    }
}

/// Reading the events from `pos`: once the first `j` can be played, the
/// rest goes on from where they lead.
pub proof fn lemma_game_split(pos: Seq<char>, evs: Seq<GameEvent>, j: int)
    requires
        0 <= j <= evs.len(),
        game_finished(pos, evs.take(j)),
    ensures
        game_moves(pos, evs) == game_moves(pos, evs.take(j)) + game_moves(game_reach(pos, evs.take(j)), evs.skip(j)),
        game_finished(pos, evs) == game_finished(game_reach(pos, evs.take(j)), evs.skip(j)),
        game_reach(pos, evs) == game_reach(game_reach(pos, evs.take(j)), evs.skip(j)),
    decreases j,
{
    if j == 0 {
        assert(evs.take(0) =~= Seq::<GameEvent>::empty());
        assert(evs.skip(0) =~= evs);
        assert(game_moves(pos, evs.take(0)) + game_moves(pos, evs) =~= game_moves(pos, evs));
    } else {
        let rest = evs.drop_first();
        assert(evs.take(j)[0] == evs[0]);
        assert(evs.take(j).drop_first() =~= rest.take(j - 1));
        assert(evs.skip(j) =~= rest.skip(j - 1));
        match evs[0] {
            GameEvent::Tag(_, _) => {
                lemma_game_split(pos, rest, j - 1);
            },
            GameEvent::San(s) => {
                let c = san_successor(pos, s@).unwrap();
                lemma_game_split(c, rest, j - 1);
                assert(seq![(pos, c, s@)] + (game_moves(c, rest.take(j - 1)) + game_moves(game_reach(c, rest.take(j - 1)), rest.skip(j - 1)))
                    =~= (seq![(pos, c, s@)] + game_moves(c, rest.take(j - 1))) + game_moves(game_reach(c, rest.take(j - 1)), rest.skip(j - 1)));
            },
        }
    }
}

/// The moves of a game are no more than its events.
pub proof fn lemma_game_moves_len(pos: Seq<char>, evs: Seq<GameEvent>)
    ensures
        game_moves(pos, evs).len() <= evs.len(),
    decreases evs.len(),
{
    if evs.len() > 0 {
        match evs[0] {
            GameEvent::Tag(_, _) => lemma_game_moves_len(pos, evs.drop_first()),
            GameEvent::San(s) => match san_successor(pos, s@) {
                Some(c) => lemma_game_moves_len(c, evs.drop_first()),
                None => {},
            },
        }
    }
}

/// No more moves are played from a position than moves in all.
pub proof fn lemma_moves_from_len(ms: Seq<PlayedMove>, p: Seq<char>)
    ensures
        moves_from(ms, p) <= ms.len(),
    decreases ms.len(),
{
    if ms.len() > 0 {
        lemma_moves_from_len(ms.drop_last(), p);
    }
}

/// When every game's moves can all be played, each game starts from the
/// initial position: the moves played are those of each game from there.
pub proof fn lemma_playable_games_start_afresh(games: Seq<Seq<GameEvent>>)
    requires
        forall|i: int| 0 <= i < games.len() ==> #[trigger] game_finished(START_EPD@, games[i]),
    ensures
        replay(games).0 == games_moves(games),
        replay(games).1 == START_EPD@,
    decreases games.len(),
{
    if games.len() > 0 {
        let init = games.drop_last();
        assert forall|i: int| 0 <= i < init.len() implies #[trigger] game_finished(START_EPD@, init[i]) by {
            assert(init[i] == games[i]);
        }
        lemma_playable_games_start_afresh(init);
        assert(game_finished(START_EPD@, games[games.len() - 1]));
    }
}

/// The games' events as sequences.
pub open spec fn game_views(games: Seq<Vec<GameEvent>>) -> Seq<Seq<GameEvent>> {
    games.map_values(|g: Vec<GameEvent>| g@)
}

proof fn lemma_events_total_prefix(games: Seq<Seq<GameEvent>>, i: int)
    requires
        0 <= i <= games.len(),
    ensures
        events_total(games.take(i)) <= events_total(games),
    decreases games.len() - i,
{
    if i < games.len() {
        lemma_events_total_prefix(games, i + 1);
        assert(games.take(i + 1).drop_last() =~= games.take(i));
    } else {
        assert(games.take(i) =~= games);
    }
}

/// The tree records one more move: the counts and the recorded pairs
/// follow the list of moves grown by it.
proof fn lemma_tree_follows_push(old_t: OpponentTree, new_t: OpponentTree, ms: Seq<PlayedMove>, m: PlayedMove)
    requires
        forall|f: Seq<char>| #[trigger] count_of(old_t.positions@, f) == moves_from(ms, f),
        forall|f: Seq<char>| #[trigger] old_t.edges(f).to_set() == moves_set(ms, f),
        new_t.positions@ == old_t.positions@.insert(m.0, (count_of(old_t.positions@, m.0) + 1) as u32),
        count_of(old_t.positions@, m.0) < u32::MAX,
        forall|f: Seq<char>| f != m.0 ==> #[trigger] new_t.edges(f) == old_t.edges(f),
        new_t.edges(m.0).to_set() == old_t.edges(m.0).to_set().insert((m.1, m.2)),
    ensures
        forall|f: Seq<char>| #[trigger] count_of(new_t.positions@, f) == moves_from(ms.push(m), f),
        forall|f: Seq<char>| #[trigger] new_t.edges(f).to_set() == moves_set(ms.push(m), f),
{
    assert(ms.push(m).drop_last() =~= ms);
    assert forall|f: Seq<char>| #[trigger] count_of(new_t.positions@, f) == moves_from(ms.push(m), f) by {
        assert(count_of(old_t.positions@, f) == moves_from(ms, f));
    }
    assert forall|f: Seq<char>| #[trigger] new_t.edges(f).to_set() == moves_set(ms.push(m), f) by {
        assert(old_t.edges(f).to_set() == moves_set(ms, f));
        if f != m.0 {
            assert(new_t.edges(f) == old_t.edges(f));
        }
    }
}

impl OpponentTree {
    /// The tree of the opponent's games, given as the events that a PGN
    /// reader reports for each: the events of each game go to the visitor
    /// in turn, up to a move that cannot be played; a game whose moves were
    /// all played ends.  Every move counts, whoever plays it; the name only
    /// tells the opponent's colour to the visitor.
    pub fn build_from_games(games: &Vec<Vec<GameEvent>>, opponent_name: String) -> (t: OpponentTree)
        requires
            events_total(game_views(games@)) < u32::MAX,
        ensures
            t.wf(),
            forall|p: Seq<char>| #[trigger] count_of(t.positions@, p) == moves_from(replay(game_views(games@)).0, p),
            forall|p: Seq<char>| #[trigger] t.edges(p).to_set() == moves_set(replay(game_views(games@)).0, p),
            (forall|i: int| 0 <= i < games@.len() ==> #[trigger] game_finished(START_EPD@, games@[i]@))
                ==> replay(game_views(games@)).0 == games_moves(game_views(games@)),
    {
        let ghost gv = game_views(games@);
        let mut v = PgnVisitor::new(opponent_name);
        proof {
            assert(gv.take(0) =~= Seq::<Seq<GameEvent>>::empty());
            assert forall|f: Seq<char>| #[trigger] v.tree.edges(f).to_set() == moves_set(replay(gv.take(0)).0, f) by {
                assert(v.tree.edges(f) =~= Seq::<(Seq<char>, Seq<char>)>::empty());
                assert(v.tree.edges(f).to_set() =~= Set::<(Seq<char>, Seq<char>)>::empty());
            }
        }
        let mut i: usize = 0;
        while i < games.len()
            invariant
                i <= games@.len(),
                gv == game_views(games@),
                events_total(gv) < u32::MAX,
                v.wf(),
                v.position@ == replay(gv.take(i as int)).1,
                replay(gv.take(i as int)).0.len() <= events_total(gv.take(i as int)),
                forall|p: Seq<char>| #[trigger] count_of(v.tree.positions@, p) == moves_from(replay(gv.take(i as int)).0, p),
                forall|p: Seq<char>| #[trigger] v.tree.edges(p).to_set() == moves_set(replay(gv.take(i as int)).0, p),
            decreases games@.len() - i,
        {
            let evs = &games[i];
            let ghost pos0 = v.position@;
            let ghost ms0 = replay(gv.take(i as int)).0;
            proof {
                assert(gv[i as int] == evs@);
                assert(gv.take(i + 1).drop_last() =~= gv.take(i as int));
                assert(gv.take(i + 1).last() == evs@);
                lemma_events_total_prefix(gv, i + 1);
                assert(evs@.take(0) =~= Seq::<GameEvent>::empty());
                assert(ms0 + game_moves(pos0, evs@.take(0)) =~= ms0);
            }
            let mut stopped = false;
            let mut j: usize = 0;
            while j < evs.len() && !stopped
                invariant
                    j <= evs@.len(),
                    evs@ == gv[i as int],
                    v.wf(),
                    ms0.len() <= events_total(gv.take(i as int)),
                    events_total(gv.take(i + 1)) == events_total(gv.take(i as int)) + evs@.len(),
                    ms0.len() + j <= events_total(gv.take(i + 1)),
                    events_total(gv.take(i + 1)) <= events_total(gv),
                    events_total(gv) < u32::MAX,
                    !stopped ==> {
                        &&& game_finished(pos0, evs@.take(j as int))
                        &&& v.position@ == game_reach(pos0, evs@.take(j as int))
                        &&& (ms0 + game_moves(pos0, evs@.take(j as int))).len() <= ms0.len() + j
                        &&& forall|p: Seq<char>| #[trigger] count_of(v.tree.positions@, p) == moves_from(ms0 + game_moves(pos0, evs@.take(j as int)), p)
                        &&& forall|p: Seq<char>| #[trigger] v.tree.edges(p).to_set() == moves_set(ms0 + game_moves(pos0, evs@.take(j as int)), p)
                    },
                    stopped ==> {
                        &&& !game_finished(pos0, evs@)
                        &&& v.position@ == game_reach(pos0, evs@)
                        &&& (ms0 + game_moves(pos0, evs@)).len() <= ms0.len() + evs@.len()
                        &&& forall|p: Seq<char>| #[trigger] count_of(v.tree.positions@, p) == moves_from(ms0 + game_moves(pos0, evs@), p)
                        &&& forall|p: Seq<char>| #[trigger] v.tree.edges(p).to_set() == moves_set(ms0 + game_moves(pos0, evs@), p)
                    },
                decreases evs@.len() - j,
            {
                let ghost pre = evs@.take(j as int);
                let ghost ms = ms0 + game_moves(pos0, pre);
                let ghost q = v.position@;
                let ghost ev = evs@[j as int];
                proof {
                    let post = evs@.take(j + 1);
                    assert(post.take(j as int) =~= pre);
                    assert(post.skip(j as int) =~= seq![ev]);
                    lemma_game_split(pos0, post, j as int);
                    assert(seq![ev].drop_first() =~= Seq::<GameEvent>::empty());
                    assert(seq![ev][0] == ev);
                    assert(game_moves(game_reach(pos0, pre), Seq::<GameEvent>::empty()) == Seq::<PlayedMove>::empty());
                    assert(game_finished(game_reach(pos0, pre), Seq::<GameEvent>::empty()));
                    lemma_game_split(pos0, evs@, j as int);
                    assert(evs@.skip(j as int)[0] == ev);
                    lemma_moves_from_len(ms, q);
                }
                let ghost old_tree = v.tree;
                match &evs[j] {
                    GameEvent::Tag(name, value) => {
                        v.tag(name.as_slice(), value.as_slice());
                        proof {
                            assert(ev == GameEvent::Tag(*name, *value));
                            assert(game_reach(q, Seq::<GameEvent>::empty()) == q);
                            assert(game_finished(q, seq![ev]));
                            assert(game_reach(q, seq![ev]) == q);
                            assert(game_moves(q, seq![ev]) =~= Seq::<PlayedMove>::empty());
                            assert(ms0 + game_moves(pos0, evs@.take(j + 1)) =~= ms);
                        }
                    },
                    GameEvent::San(san) => {
                        if v.san(san.as_str()) {
                            proof {
                                assert(ev == GameEvent::San(*san));
                                let c = san_successor(q, san@).unwrap();
                                let m: PlayedMove = (q, c, san@);
                                assert(seq![ev].drop_first() =~= Seq::<GameEvent>::empty());
                                assert(game_moves(c, Seq::<GameEvent>::empty()) == Seq::<PlayedMove>::empty());
                                assert(game_moves(q, seq![ev]) == seq![m] + game_moves(c, seq![ev].drop_first()));
                                assert(game_moves(q, seq![ev]) =~= seq![m]);
                                assert(game_finished(c, Seq::<GameEvent>::empty()));
                                assert(game_reach(c, Seq::<GameEvent>::empty()) == c);
                                assert(game_finished(q, seq![ev]));
                                assert(game_reach(q, seq![ev]) == c);
                                assert(ms0 + game_moves(pos0, evs@.take(j + 1)) =~= ms.push(m));
                                lemma_tree_follows_push(old_tree, v.tree, ms, m);
                            }
                        } else {
                            stopped = true;
                            proof {
                                assert(ev == GameEvent::San(*san));
                                assert(game_moves(q, evs@.skip(j as int)) =~= Seq::<PlayedMove>::empty());
                                assert(ms0 + game_moves(pos0, evs@) =~= ms);
                            }
                        }
                    },
                }
                j = j + 1;
            }
            proof {
                if !stopped {
                    assert(evs@.take(j as int) =~= evs@);
                }
            }
            if !stopped {
                v.end_game();
            }
            proof {
                assert(replay(gv.take(i + 1)) == (ms0 + game_moves(pos0, evs@), if game_finished(pos0, evs@) { START_EPD@ } else { game_reach(pos0, evs@) }));
            }
            i = i + 1;
        }
        proof {
            assert(gv.take(games@.len() as int) =~= gv);
            if forall|i: int| 0 <= i < games@.len() ==> #[trigger] game_finished(START_EPD@, games@[i]@) {
                assert forall|k: int| 0 <= k < gv.len() implies #[trigger] game_finished(START_EPD@, gv[k]) by {
                    assert(gv[k] == games@[k]@);
                }
                lemma_playable_games_start_afresh(gv);
            }
        }
        v.tree
    }
}

} // verus!
