//! Game lists: a PGN text cut into its games, the games used when the
//! online archive cannot answer, and the request and answer handling of
//! that archive.

use vstd::prelude::*;
use vstd::string::StringExecFns;
use crate::reachability::texts;
use crate::text::{chars_of, string_from_chars, decimal, usize_to_decimal, is_numeral, digits_value, lemma_decimal_value};

verus! {

/// `sep` occurs in `s` at index `i`.
pub open spec fn occurs_at(s: Seq<char>, sep: Seq<char>, i: int) -> bool {
    0 <= i && i + sep.len() <= s.len() && s.subrange(i, i + sep.len()) == sep
}

/// `sep` occurs somewhere in `s`.
pub open spec fn contains_text(s: Seq<char>, sep: Seq<char>) -> bool {
    exists|i: int| #[trigger] occurs_at(s, sep, i)
}

/// The first occurrence of `sep` in `s` at or after `p`.
pub open spec fn first_at(s: Seq<char>, sep: Seq<char>, p: int, i: int) -> bool {
    &&& p <= i
    &&& occurs_at(s, sep, i)
    &&& forall|j: int| p <= j < i ==> !#[trigger] occurs_at(s, sep, j)
}

/// The pieces of `s[p..]` between the occurrences of `sep`, found from
/// left to right: what `str::split` yields.
pub open spec fn split_from(s: Seq<char>, sep: Seq<char>, p: int) -> Seq<Seq<char>>
    decreases s.len() - p,
{
    if sep.len() == 0 || p < 0 || p > s.len() {
        seq![s.subrange(p, s.len() as int)]
    } else if exists|i: int| #[trigger] first_at(s, sep, p, i) {
        let i = choose|i: int| #[trigger] first_at(s, sep, p, i);
        seq![s.subrange(p, i)] + split_from(s, sep, i + sep.len())
    } else {
        seq![s.subrange(p, s.len() as int)]
    }
}

/// The text that separates games.
pub open spec fn game_separator() -> Seq<char> {
    "\n[Event "@
}

/// The tag that starts a game.
pub open spec fn event_tag() -> Seq<char> {
    "[Event "@
}

/// The game texts of the first `k` pieces: every piece but the first gets
/// the `[Event ` its separator took away, and only pieces that hold an
/// `[Event ` tag are kept.
pub open spec fn games_of_pieces(pieces: Seq<Seq<char>>, k: nat) -> Seq<Seq<char>>
    decreases k,
{
    if k == 0 || k > pieces.len() {
        Seq::empty()
    } else {
        let i = k - 1;
        let g = if i == 0 { pieces[i] } else { event_tag() + pieces[i] };
        games_of_pieces(pieces, (k - 1) as nat) + if contains_text(g, event_tag()) { seq![g] } else { Seq::empty() }
    }
}

/// The games of a PGN text.
pub open spec fn games_of(s: Seq<char>) -> Seq<Seq<char>> {
    let pieces = split_from(s, game_separator(), 0);
    games_of_pieces(pieces, pieces.len())
}

/// Whether `sep` occurs in `cs` at `i`.
fn occurs_at_exec(cs: &Vec<char>, sep: &Vec<char>, i: usize) -> (r: bool)
    ensures
        r == occurs_at(cs@, sep@, i as int),
{
    let n = cs.len();
    if i > n || n - i < sep.len() {
        return false;
    }
    let mut k: usize = 0;
    while k < sep.len()
        invariant
            k <= sep@.len(),
            n == cs@.len(),
            i + sep@.len() <= cs@.len(),
            forall|j: int| 0 <= j < k ==> cs@[i + j] == sep@[j],
        decreases sep@.len() - k,
    {
        assert(i + k < cs@.len());
        if cs[i + k] != sep[k] {
            proof {
                assert(cs@.subrange(i as int, i + sep@.len())[k as int] != sep@[k as int]);
            }
            return false;
        }
        k = k + 1;
    }
    proof {
        assert(cs@.subrange(i as int, i + sep@.len()) =~= sep@);
    }
    true
}

/// Whether `sep` occurs in `cs`.
fn contains_exec(cs: &Vec<char>, sep: &Vec<char>) -> (r: bool)
    requires
        sep@.len() > 0,
    ensures
        r == contains_text(cs@, sep@),
{
    let mut i: usize = 0;
    while i < cs.len()
        invariant
            i <= cs@.len(),
            sep@.len() > 0,
            forall|j: int| 0 <= j < i ==> !#[trigger] occurs_at(cs@, sep@, j),
        decreases cs@.len() + 1 - i,
    {
        if occurs_at_exec(cs, sep, i) {
            return true;
        }
        i = i + 1;
    }
    proof {
        assert forall|j: int| !#[trigger] occurs_at(cs@, sep@, j) by {
            if j >= cs@.len() {
                assert(!occurs_at(cs@, sep@, j));
            }
        }
    }
    false
}

/// The characters `cs[from..to]` as a string.
fn piece(cs: &Vec<char>, from: usize, to: usize) -> (r: String)
    requires
        from <= to <= cs@.len(),
    ensures
        r@ == cs@.subrange(from as int, to as int),
{
    let mut v: Vec<char> = Vec::new();
    let mut k: usize = from;
    while k < to
        invariant
            from <= k <= to <= cs@.len(),
            v@ == cs@.subrange(from as int, k as int),
        decreases to - k,
    {
        v.push(cs[k]);
        proof {
            assert(cs@.subrange(from as int, k + 1) =~= cs@.subrange(from as int, k as int).push(cs@[k as int]));
        }
        k = k + 1;
    }
    string_from_chars(v.as_slice())
}

proof fn lemma_first_unique(s: Seq<char>, sep: Seq<char>, p: int, i: int, j: int)
    requires
        first_at(s, sep, p, i),
        first_at(s, sep, p, j),
    ensures
        i == j,
{
    if i < j {
        assert(!occurs_at(s, sep, i));
    }
    if j < i {
        assert(!occurs_at(s, sep, j));
    }
}

/// The games of a PGN text: the text is cut at each `\n[Event `, every
/// piece but the first gets its `[Event ` back, and the pieces without an
/// `[Event ` tag are dropped.
pub fn split_pgn_games(content: &str) -> (r: Vec<String>)
    ensures
        texts(r@) == games_of(content@),
{
    let cs = chars_of(content);
    let sep = chars_of("\n[Event ");
    let tag = chars_of("[Event ");
    proof {
        reveal_strlit("\n[Event ");
        reveal_strlit("[Event ");
        assert(sep@.len() == 8);
        assert(tag@.len() == 7);
    }
    let ghost s = content@;
    // Cut into pieces.
    let mut pieces: Vec<String> = Vec::new();
    let mut p: usize = 0;
    let mut i: usize = 0;
    let mut done = false;
    while !done
        invariant
            cs@ == s,
            sep@ == game_separator(),
            sep@.len() == 8,
            p <= i <= cs@.len(),
            p <= cs@.len(),
            forall|j: int| p <= j < i ==> !#[trigger] occurs_at(s, sep@, j),
            !done ==> split_from(s, sep@, 0) == texts(pieces@) + split_from(s, sep@, p as int),
            done ==> split_from(s, sep@, 0) == texts(pieces@),
        decreases cs@.len() - i + (if done { 0int } else { 1int }),
    {
        if i >= cs.len() {
            // No more separator: the rest is the last piece.
            let last = piece(&cs, p, cs.len());
            proof {
                assert forall|j: int| !#[trigger] first_at(s, sep@, p as int, j) by {
                    if first_at(s, sep@, p as int, j) {
                        assert(j < i);
                        assert(!occurs_at(s, sep@, j));
                    }
                }
                assert(split_from(s, sep@, p as int) == seq![s.subrange(p as int, s.len() as int)]);
            }
            let ghost before = pieces@;
            pieces.push(last);
            proof {
                assert(texts(pieces@) =~= texts(before) + seq![s.subrange(p as int, s.len() as int)]);
            }
            done = true;
        } else if occurs_at_exec(&cs, &sep, i) {
            let cut = piece(&cs, p, i);
            proof {
                assert(first_at(s, sep@, p as int, i as int));
                let k = choose|k: int| #[trigger] first_at(s, sep@, p as int, k);
                lemma_first_unique(s, sep@, p as int, i as int, k);
                assert(split_from(s, sep@, p as int) == seq![s.subrange(p as int, i as int)] + split_from(s, sep@, i + 8));
            }
            let ghost before = pieces@;
            pieces.push(cut);
            proof {
                assert(texts(pieces@) =~= texts(before).push(s.subrange(p as int, i as int)));
                assert(texts(before) + (seq![s.subrange(p as int, i as int)] + split_from(s, sep@, i + 8)) =~= texts(pieces@) + split_from(s, sep@, i + 8));
            }
            p = i + 8;
            i = i + 8;
        } else {
            i = i + 1;
        }
    }
    // Label and keep.
    let ghost ps = texts(pieces@);
    let mut games: Vec<String> = Vec::new();
    let mut k: usize = 0;
    while k < pieces.len()
        invariant
            k <= pieces@.len(),
            ps == texts(pieces@),
            tag@ == event_tag(),
            tag@.len() == 7,
            texts(games@) == games_of_pieces(ps, k as nat),
        decreases pieces@.len() - k,
    {
        let g = if k == 0 {
            pieces[k].clone()
        } else {
            let mut g = String::from_str("[Event ");
            g.append(pieces[k].as_str());
            g
        };
        proof {
            assert(ps[k as int] == pieces@[k as int]@);
        }
        let gc = chars_of(g.as_str());
        let ghost before = games@;
        if contains_exec(&gc, &tag) {
            games.push(g);
            proof {
                assert(texts(games@) =~= texts(before) + seq![g@]);
            }
        } else {
            proof {
                assert(texts(games@) =~= texts(before) + Seq::<Seq<char>>::empty());
            }
        }
        k = k + 1;
    }
    games
}


proof fn lemma_kept_pieces_hold_tag(pieces: Seq<Seq<char>>, k: nat)
    ensures
        forall|j: int| 0 <= j < games_of_pieces(pieces, k).len() ==> contains_text(#[trigger] games_of_pieces(pieces, k)[j], event_tag()),
    decreases k,
{
    if k > 0 && k <= pieces.len() {
        lemma_kept_pieces_hold_tag(pieces, (k - 1) as nat);
        let prev = games_of_pieces(pieces, (k - 1) as nat);
        let i = k - 1;
        let g = if i == 0 { pieces[i] } else { event_tag() + pieces[i] };
        let tail = if contains_text(g, event_tag()) { seq![g] } else { Seq::<Seq<char>>::empty() };
        assert forall|j: int| 0 <= j < games_of_pieces(pieces, k).len() implies contains_text(#[trigger] games_of_pieces(pieces, k)[j], event_tag()) by {
            if j < prev.len() {
                assert(games_of_pieces(pieces, k)[j] == prev[j]);
            } else {
                assert(games_of_pieces(pieces, k)[j] == tail[j - prev.len()]);
            }
        }
    }
}

/// Every game cut from a PGN text holds an `[Event ` tag.
pub proof fn lemma_games_hold_event_tag(s: Seq<char>)
    ensures
        forall|j: int| 0 <= j < games_of(s).len() ==> contains_text(#[trigger] games_of(s)[j], event_tag()),
{
    let pieces = split_from(s, game_separator(), 0);
    lemma_kept_pieces_hold_tag(pieces, pieces.len());
}

/// The first game used when the archive cannot answer.
pub open spec fn fallback_game_1() -> Seq<char> {
    "[Event \"Fallback Game 1\"]\n[White \"DrNykterstein\"]\n[Black \"Opponent\"]\n[Result \"1-0\"]\n\n1. e4 e5 2. Nf3 Nc6 3. Bb5 a6 4. Ba4 Nf6 5. O-O Be7 6. Re1 b5 7. Bb3 d6 8. c3 O-O 9. h3 Na5 10. Bc2 c5 11. d4 1-0"@
}

/// The second game used when the archive cannot answer.
pub open spec fn fallback_game_2() -> Seq<char> {
    "[Event \"Fallback Game 2\"]\n[White \"Opponent\"]\n[Black \"DrNykterstein\"]\n[Result \"0-1\"]\n\n1. e4 c6 2. d4 d5 3. Nc3 dxe4 4. Nxe4 Nd7 5. Ng5 Ngf6 6. Bd3 e6 7. N1f3 h6 8. Nxe6 Qe7 9. O-O fxe6 10. Bg6+ Kd8 0-1"@
}

/// The games used when the archive cannot answer.
pub fn get_fallback_games() -> (r: Vec<String>)
    ensures
        texts(r@) == seq![fallback_game_1(), fallback_game_2()],
{
    let mut r: Vec<String> = Vec::new();
    r.push(String::from_str("[Event \"Fallback Game 1\"]\n[White \"DrNykterstein\"]\n[Black \"Opponent\"]\n[Result \"1-0\"]\n\n1. e4 e5 2. Nf3 Nc6 3. Bb5 a6 4. Ba4 Nf6 5. O-O Be7 6. Re1 b5 7. Bb3 d6 8. c3 O-O 9. h3 Na5 10. Bc2 c5 11. d4 1-0"));
    r.push(String::from_str("[Event \"Fallback Game 2\"]\n[White \"Opponent\"]\n[Black \"DrNykterstein\"]\n[Result \"0-1\"]\n\n1. e4 c6 2. d4 d5 3. Nc3 dxe4 4. Nxe4 Nd7 5. Ng5 Ngf6 6. Bd3 e6 7. N1f3 h6 8. Nxe6 Qe7 9. O-O fxe6 10. Bg6+ Kd8 0-1"));
    proof {
        assert(texts(r@) =~= seq![fallback_game_1(), fallback_game_2()]);
    }
    r
}

/// The address of the archive's games of `username`: at most `limit`
/// games, of the speed `perf_type` when one is given.
pub open spec fn games_url(username: Seq<char>, limit: u32, perf_type: Option<Seq<char>>) -> Seq<char> {
    let base = "https://lichess.org/api/games/user/"@ + username + "?max="@ + decimal(limit as nat);
    match perf_type {
        Some(t) => base + "&perfType="@ + t,
        None => base,
    }
}

/// The address law: the `max` parameter is the decimal numeral of the
/// whole limit (no leading zero), after the user name, and the speed, when
/// given, follows as `perfType`.
pub proof fn lemma_games_url_limit(username: Seq<char>, limit: u32, perf_type: Option<Seq<char>>)
    ensures
        exists|d: Seq<char>| {
            &&& is_numeral(d)
            &&& digits_value(d) == limit
            &&& (d.len() == 1 || d[0] != '0')
            &&& #[trigger] games_url(username, limit, perf_type) == "https://lichess.org/api/games/user/"@ + username + "?max="@ + d
                + match perf_type {
                Some(t) => "&perfType="@ + t,
                None => Seq::<char>::empty(),
            }
        },
{
    let d = decimal(limit as nat);
    lemma_decimal_value(limit as nat);
    let base = "https://lichess.org/api/games/user/"@ + username + "?max="@ + d;
    match perf_type {
        Some(t) => {},
        None => {
            assert(base + Seq::<char>::empty() =~= base);
        },
    }
}

/// The address of the request for the opponent's games.
pub fn lichess_games_url(username: &str, limit: u32, perf_type: Option<&str>) -> (r: String)
    ensures
        r@ == games_url(username@, limit, match perf_type { Some(t) => Some(t@), None => None }),
{
    let mut url = String::from_str("https://lichess.org/api/games/user/");
    url.append(username);
    url.append("?max=");
    let n = usize_to_decimal(limit as usize);
    url.append(n.as_str());
    match perf_type {
        Some(t) => {
            url.append("&perfType=");
            url.append(t);
        },
        None => {},
    }
    url
}

/// What to do with the archive's answer, by its HTTP status.
#[derive(Debug, Clone, Copy, PartialEq, Eq)]
pub enum StatusAction {
    /// Use the fallback games (rate limit, or any other failure).
    UseFallback,
    /// The player does not exist: an error.
    PlayerNotFound,
    /// Read the games from the answer's body.
    ReadGames,
}

/// The action for each status: 429 and any status outside 200..=299 other
/// than 404 fall back, 404 is an error, a success is read.
pub open spec fn action_for(code: u16) -> StatusAction {
    if code == 429 {
        StatusAction::UseFallback
    } else if code == 404 {
        StatusAction::PlayerNotFound
    } else if 200 <= code <= 299 {
        StatusAction::ReadGames
    } else {
        StatusAction::UseFallback
    }
}

/// What to do with an answer of status `code`.
pub fn status_action(code: u16) -> (r: StatusAction)
    ensures
        r == action_for(code),
{
    if code == 429 {
        StatusAction::UseFallback
    } else if code == 404 {
        StatusAction::PlayerNotFound
    } else if 200 <= code && code <= 299 {
        StatusAction::ReadGames
    } else {
        StatusAction::UseFallback
    }
}

/// The error message for a player the archive does not know.
pub fn player_not_found_message(username: &str) -> (r: String)
    ensures
        r@ == "Joueur introuvable : "@ + username@,
{
    let mut m = String::from_str("Joueur introuvable : ");
    m.append(username);
    m
}

} // verus!
